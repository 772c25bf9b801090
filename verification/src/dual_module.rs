//! Dual Module
//!
//! The dual nodes (defect vertices and blossoms) and the interface that keeps
//! their dual variables. Dual nodes live in an arena owned by the interface and
//! refer to each other by index ([`DualNodePtr`]).
//!

use crate::dual_module_serial::{DualModuleSerial, GrowError};
use crate::complete_graph::{apply_modifier, lemma_keys_increasing, lemma_vertex_keys_ordered, modifier_valid};
use crate::util::{EdgeIndex, IndexRange, NodeIndex, NodeNum, SyndromePattern, VertexIndex, Weight};
use std::collections::{BTreeMap, BTreeSet};
use vstd::prelude::*;

verus! {

broadcast use {vstd::std_specs::btree::group_btree_axioms, vstd::laws_cmp::group_laws_cmp};

/// largest absolute value of a dual variable or of the global growth progress
pub const DUAL_BOUND: i64 = 0x100_0000_0000;

/// largest number of dual nodes an interface may hold
pub const NODE_NUM_BOUND: usize = 0x40_0000;

/// a handle to a dual node: its index in the owning interface
#[derive(Debug, Clone, Copy, PartialEq, Eq, Structural)]
pub struct DualNodePtr {
    pub index: NodeIndex,
}

/// a dual node is never shared across interfaces, so the weak handle is the same index
pub type DualNodeWeak = DualNodePtr;

/// A dual node is either a blossom or a vertex
#[derive(Debug, Clone)]
pub enum DualNodeClass {
    Blossom { nodes_circle: Vec<DualNodePtr>, touching_children: Vec<(DualNodePtr, DualNodePtr)> },
    DefectVertex { defect_index: VertexIndex },
}

impl DualNodeClass {
    pub fn is_blossom(&self) -> (r: bool)
        ensures
            r == (self is Blossom),
    {
        match self {
            DualNodeClass::Blossom { .. } => true,
            DualNodeClass::DefectVertex { .. } => false,
        }
    }
}

/// Three possible states: Grow (+1), Stay (+0), Shrink (-1)
#[derive(Debug, Clone, Copy, PartialEq, Eq, Structural)]
pub enum DualNodeGrowState {
    Grow,
    Stay,
    Shrink,
}

impl DualNodeGrowState {
    /// the rate at which the dual variable changes with the global progress
    pub open spec fn speed(self) -> int {
        match self {
            DualNodeGrowState::Grow => 1,
            DualNodeGrowState::Stay => 0,
            DualNodeGrowState::Shrink => -1,
        }
    }

    /// two nodes growing towards each other: (Grow, Grow), (Grow, Stay) or (Stay, Grow)
    pub fn is_against(&self, other: &Self) -> (r: bool)
        ensures
            r == ((*self == DualNodeGrowState::Grow && *other != DualNodeGrowState::Shrink) || (
            *self == DualNodeGrowState::Stay && *other == DualNodeGrowState::Grow)),
    {
        match (self, other) {
            (DualNodeGrowState::Grow, DualNodeGrowState::Grow) => true,
            (DualNodeGrowState::Grow, DualNodeGrowState::Stay) => true,
            (DualNodeGrowState::Stay, DualNodeGrowState::Grow) => true,
            _ => false,
        }
    }
}

/// synchronize request on vertices, when a vertex is mirrored in another unit
#[derive(Debug, Clone)]
pub struct SyncRequest {
    /// the unit that owns this vertex
    pub mirror_unit_index: usize,
    /// the vertex index to be synchronized
    pub vertex_index: VertexIndex,
    /// propagated dual node, the dual variable of it and its representative vertex
    pub propagated_dual_node: Option<(DualNodePtr, Weight, VertexIndex)>,
    /// propagated grandson node: must be a syndrome node
    pub propagated_grandson_dual_node: Option<(DualNodePtr, Weight, VertexIndex)>,
}

/// gives the maximum absolute length to grow, if not possible, give the reason
#[derive(Debug, Clone, Copy, PartialEq, Eq)]
pub enum MaxUpdateLength {
    /// non-zero maximum update length, has_empty_boundary_node (useful in fusion)
    NonZeroGrow((Weight, bool)),
    /// conflicting growth: (node_1, touching_1), (node_2, touching_2)
    Conflicting((DualNodePtr, DualNodePtr), (DualNodePtr, DualNodePtr)),
    /// conflicting growth because of touching virtual node: (node, touching), (virtual_vertex, is_mirror)
    TouchingVirtual((DualNodePtr, DualNodePtr), (VertexIndex, bool)),
    /// blossom hitting 0 dual variable while shrinking
    BlossomNeedExpand(DualNodePtr),
    /// node hitting 0 dual variable while shrinking, with a potential conflicting pair
    VertexShrinkStop((DualNodePtr, Option<(DualNodePtr, DualNodePtr)>)),
}

impl MaxUpdateLength {
    /// whether this is a conflict between `a` and `b`, in either order
    pub fn is_conflicting(&self, a: &DualNodePtr, b: &DualNodePtr) -> (r: bool)
        ensures
            r == (self matches MaxUpdateLength::Conflicting((n1, _), (n2, _)) && ((n1 == *a && n2
                == *b) || (n1 == *b && n2 == *a))),
    {
        match self {
            MaxUpdateLength::Conflicting((n1, _), (n2, _)) => {
                (*n1 == *a && *n2 == *b) || (*n1 == *b && *n2 == *a)
            },
            _ => false,
        }
    }

    pub fn get_none_zero_growth(&self) -> (r: Option<Weight>)
        ensures
            match *self {
                MaxUpdateLength::NonZeroGrow((length, _)) => r == Some(length),
                _ => r is None,
            },
    {
        match self {
            MaxUpdateLength::NonZeroGrow((length, _)) => Some(*length),
            _ => None,
        }
    }

    pub fn get_conflicting(&self) -> (r: Option<(DualNodePtr, DualNodePtr)>)
        ensures
            match *self {
                MaxUpdateLength::Conflicting((a, _), (b, _)) => r == Some((a, b)),
                _ => r is None,
            },
    {
        match self {
            MaxUpdateLength::Conflicting((a, _), (b, _)) => Some((*a, *b)),
            _ => None,
        }
    }

    pub fn get_touching_virtual(&self) -> (r: Option<(DualNodePtr, VertexIndex)>)
        ensures
            match *self {
                MaxUpdateLength::TouchingVirtual((a, _), (b, _)) => r == Some((a, b)),
                _ => r is None,
            },
    {
        match self {
            MaxUpdateLength::TouchingVirtual((a, _), (b, _)) => Some((*a, *b)),
            _ => None,
        }
    }

    pub fn get_blossom_need_expand(&self) -> (r: Option<DualNodePtr>)
        ensures
            match *self {
                MaxUpdateLength::BlossomNeedExpand(a) => r == Some(a),
                _ => r is None,
            },
    {
        match self {
            MaxUpdateLength::BlossomNeedExpand(a) => Some(*a),
            _ => None,
        }
    }

    pub fn get_vertex_shrink_stop(&self) -> (r: Option<DualNodePtr>)
        ensures
            match *self {
                MaxUpdateLength::VertexShrinkStop((a, _)) => r == Some(a),
                _ => r is None,
            },
    {
        match self {
            MaxUpdateLength::VertexShrinkStop((a, _)) => Some(*a),
            _ => None,
        }
    }
}

/// temporarily remember the weights that has been changed, so that it can revert back
#[derive(Debug, Clone)]
pub struct EdgeWeightModifier {
    /// edge with changed weighted caused by the erasure or X/Z correlation
    pub modified: Vec<(EdgeIndex, Weight)>,
}

impl EdgeWeightModifier {
    pub fn new() -> (r: Self)
        ensures
            r.modified@.len() == 0,
    {
        EdgeWeightModifier { modified: Vec::new() }
    }

    /// record the modified edge
    pub fn push_modified_edge(&mut self, erasure_edge: EdgeIndex, original_weight: Weight)
        ensures
            final(self).modified@ == old(self).modified@.push((erasure_edge, original_weight)),
    {
        self.modified.push((erasure_edge, original_weight));
    }

    /// if some edges are not recovered
    pub fn has_modified_edges(&self) -> (r: bool)
        ensures
            r == (self.modified@.len() > 0),
    {
        self.modified.len() > 0
    }

    /// retrieve the last modified edge
    pub fn pop_modified_edge(&mut self) -> (r: (EdgeIndex, Weight))
        requires
            old(self).modified@.len() > 0,
        ensures
            r == old(self).modified@.last(),
            final(self).modified@ == old(self).modified@.drop_last(),
    {
        match self.modified.pop() {
            Some(r) => r,
            None => (0, 0),
        }
    }
}

/// A dual node corresponds to either a vertex or a blossom (on which the dual variables are defined)
#[derive(Debug)]
pub struct DualNode {
    /// the index of this dual node, helps to locate internal details of this dual node
    pub index: NodeIndex,
    /// the class of this dual node
    pub class: DualNodeClass,
    /// whether it grows, stays or shrinks
    pub grow_state: DualNodeGrowState,
    /// parent blossom: when parent exists, grow_state should be [`DualNodeGrowState::Stay`]
    pub parent_blossom: Option<DualNodeWeak>,
    /// information used to compute dual variable of this node: (last dual variable, last global progress)
    pub dual_variable_cache: (Weight, Weight),
    /// how many defect vertices in this dual node
    pub defect_size: usize,
}

impl DualNode {
    /// the dual variable of this node when the global progress is `progress`
    pub open spec fn spec_dual_variable(&self, progress: int) -> int {
        self.dual_variable_cache.0 + self.grow_state.speed() * (progress
            - self.dual_variable_cache.1)
    }

    /// get the current dual variable of a node
    pub fn get_dual_variable(&self, interface: &DualModuleInterface) -> (r: Weight)
        requires
            -DUAL_BOUND <= self.dual_variable_cache.0 <= DUAL_BOUND,
            -DUAL_BOUND <= self.dual_variable_cache.1 <= DUAL_BOUND,
            -DUAL_BOUND <= interface.dual_variable_global_progress <= DUAL_BOUND,
        ensures
            r == self.spec_dual_variable(interface.dual_variable_global_progress as int),
    {
        let (last_dual_variable, last_global_progress) = self.dual_variable_cache;
        match self.grow_state {
            DualNodeGrowState::Grow => last_dual_variable + (interface.dual_variable_global_progress
                - last_global_progress),
            DualNodeGrowState::Stay => last_dual_variable,
            DualNodeGrowState::Shrink => last_dual_variable - (
            interface.dual_variable_global_progress - last_global_progress),
        }
    }
}

/// the array of dual nodes; a removed node leaves a blank space and its index is never reused
#[derive(Debug)]
pub struct DualModuleInterface {
    /// unit index of this interface, default to 0
    pub unit_index: usize,
    /// all the dual nodes that can be used to control a concrete dual module implementation
    pub nodes: Vec<Option<DualNode>>,
    /// current nodes length, to enable constant-time clear operation
    pub nodes_length: usize,
    /// set when this interface takes part in a fusion
    pub is_fusion: bool,
    /// record the total growing nodes, should be non-negative in a normal running algorithm
    pub sum_grow_speed: Weight,
    /// record the total sum of dual variables
    pub sum_dual_variables: Weight,
    /// debug mode: only resolve one conflict each time
    pub debug_print_actions: bool,
    /// the global progress of growth; dual variables are computed relative to it
    pub dual_variable_global_progress: Weight,
    /// when fused, this will indicate the relative bias given by the parent
    pub index_bias: NodeIndex,
}

/// the interface owns its dual nodes, so the handle to it is the interface itself
pub type DualModuleInterfacePtr = DualModuleInterface;

/// sum of the dual variables of the live nodes among the first `n` slots
pub open spec fn nodes_dual_sum(nodes: Seq<Option<DualNode>>, n: int, progress: int) -> int
    decreases n,
{
    if n <= 0 {
        0
    } else {
        nodes_dual_sum(nodes, n - 1, progress) + match nodes[n - 1] {
            Some(node) => node.spec_dual_variable(progress),
            None => 0,
        }
    }
}

/// sum of the growing speeds of the live nodes among the first `n` slots
pub open spec fn nodes_speed_sum(nodes: Seq<Option<DualNode>>, n: int) -> int
    decreases n,
{
    if n <= 0 {
        0
    } else {
        nodes_speed_sum(nodes, n - 1) + match nodes[n - 1] {
            Some(node) => node.grow_state.speed(),
            None => 0,
        }
    }
}

/// growing by `length` changes the sum of dual variables by `length` times the sum of speeds
pub proof fn lemma_dual_sum_grow(nodes: Seq<Option<DualNode>>, n: int, progress: int, length: int)
    ensures
        nodes_dual_sum(nodes, n, progress + length) == nodes_dual_sum(nodes, n, progress) + length
            * nodes_speed_sum(nodes, n),
    decreases n,
{
    if n > 0 {
        lemma_dual_sum_grow(nodes, n - 1, progress, length);
        match nodes[n - 1] {
            Some(node) => {
                let s = node.grow_state.speed();
                let c0 = node.dual_variable_cache.0;
                let c1 = node.dual_variable_cache.1;
                assert(c0 + s * (progress + length - c1) == c0 + s * (progress - c1) + length * s)
                    by (nonlinear_arith);
                assert(length * nodes_speed_sum(nodes, n - 1) + length * s == length * (
                nodes_speed_sum(nodes, n - 1) + s)) by (nonlinear_arith);
            },
            None => {},
        }
    }
}

/// the sums only look at the first `n` slots
pub proof fn lemma_sums_prefix(a: Seq<Option<DualNode>>, b: Seq<Option<DualNode>>, n: int, progress: int)
    requires
        0 <= n <= a.len(),
        n <= b.len(),
        forall|i: int| 0 <= i < n ==> a[i] == b[i],
    ensures
        nodes_dual_sum(a, n, progress) == nodes_dual_sum(b, n, progress),
        nodes_speed_sum(a, n) == nodes_speed_sum(b, n),
    decreases n,
{
    if n > 0 {
        lemma_sums_prefix(a, b, n - 1, progress);
    }
}

/// changing one slot changes the sums by the difference of that slot alone
pub proof fn lemma_sums_update(
    a: Seq<Option<DualNode>>,
    n: int,
    k: int,
    v: Option<DualNode>,
    progress: int,
)
    requires
        0 <= k < n <= a.len(),
    ensures
        nodes_dual_sum(a.update(k, v), n, progress) == nodes_dual_sum(a, n, progress) - match a[k] {
            Some(node) => node.spec_dual_variable(progress),
            None => 0,
        } + match v {
            Some(node) => node.spec_dual_variable(progress),
            None => 0,
        },
        nodes_speed_sum(a.update(k, v), n) == nodes_speed_sum(a, n) - match a[k] {
            Some(node) => node.grow_state.speed(),
            None => 0,
        } + match v {
            Some(node) => node.grow_state.speed(),
            None => 0,
        },
    decreases n,
{
    if n - 1 == k {
        lemma_sums_prefix(a, a.update(k, v), k, progress);
    } else {
        lemma_sums_update(a, n - 1, k, v, progress);
    }
}

/// each live node contributes at most `DUAL_BOUND` in absolute value
pub proof fn lemma_dual_sum_bound(nodes: Seq<Option<DualNode>>, n: int, progress: int)
    requires
        0 <= n <= nodes.len(),
        forall|i: int|
            0 <= i < n ==> match #[trigger] nodes[i] {
                Some(node) => -DUAL_BOUND <= node.spec_dual_variable(progress) <= DUAL_BOUND,
                None => true,
            },
    ensures
        -n * DUAL_BOUND <= nodes_dual_sum(nodes, n, progress) <= n * DUAL_BOUND,
        -n <= nodes_speed_sum(nodes, n) <= n,
    decreases n,
{
    if n > 0 {
        lemma_dual_sum_bound(nodes, n - 1, progress);
        assert(nodes[n - 1] == nodes[n - 1]);
    }
}

impl DualModuleInterface {
    /// the slot `i` holds a live node
    pub open spec fn is_live(&self, i: int) -> bool {
        0 <= i < self.nodes_length && self.nodes@[i] is Some
    }

    /// the live node in slot `i`
    pub open spec fn node(&self, i: int) -> DualNode {
        self.nodes@[i]->Some_0
    }

    /// the current dual variable of the live node in slot `i`
    pub open spec fn dual_variable_of(&self, i: int) -> int {
        self.node(i).spec_dual_variable(self.dual_variable_global_progress as int)
    }

    /// the references held by a single live node are consistent
    pub open spec fn node_wf(&self, i: int) -> bool {
        let node = self.node(i);
        &&& node.index == i
        &&& node.defect_size >= 1
        &&& -DUAL_BOUND <= node.dual_variable_cache.0 <= DUAL_BOUND
        &&& -DUAL_BOUND <= node.dual_variable_cache.1 <= DUAL_BOUND
        &&& -DUAL_BOUND <= self.dual_variable_of(i) <= DUAL_BOUND
        &&& (node.parent_blossom matches Some(p) ==> i < p.index < self.nodes_length && node.grow_state
            == DualNodeGrowState::Stay)
        &&& (node.class matches DualNodeClass::Blossom { nodes_circle, touching_children } ==> {
            &&& nodes_circle@.len() >= 1
            &&& touching_children@.len() == nodes_circle@.len()
            &&& forall|k: int|
                0 <= k < nodes_circle@.len() ==> {
                    &&& (#[trigger] nodes_circle@[k]).index < i
                    &&& self.is_live(nodes_circle@[k].index as int)
                }
            &&& forall|k: int|
                0 <= k < touching_children@.len() ==> (#[trigger] touching_children@[k]).0.index
                    < self.nodes_length && touching_children@[k].1.index < self.nodes_length
        })
    }

    /// well-formedness depends on the nodes, the progress and the sums alone
    pub proof fn lemma_wf_frame(a: &Self, b: &Self)
        requires
            a.wf(),
            b.nodes@ == a.nodes@,
            b.nodes_length == a.nodes_length,
            b.dual_variable_global_progress == a.dual_variable_global_progress,
            b.sum_dual_variables == a.sum_dual_variables,
            b.sum_grow_speed == a.sum_grow_speed,
        ensures
            b.wf(),
    {
        assert forall|i: int| #[trigger] b.is_live(i) implies b.node_wf(i) by {
            assert(a.is_live(i));
            assert(a.node_wf(i));
            if let DualNodeClass::Blossom { nodes_circle, .. } = b.node(i).class {
                assert forall|k: int| 0 <= k < nodes_circle@.len() implies b.is_live(
                    (#[trigger] nodes_circle@[k]).index as int,
                ) by {
                    assert(a.is_live(nodes_circle@[k].index as int));
                }
            }
        }
    }

    /// the interface is consistent: node references point backwards to live nodes, all values
    /// stay within bounds, and the running sums equal the sums over the individual nodes
    pub open spec fn wf(&self) -> bool {
        &&& self.nodes_length <= self.nodes@.len()
        &&& self.nodes_length <= NODE_NUM_BOUND
        &&& 0 <= self.dual_variable_global_progress <= DUAL_BOUND
        &&& forall|i: int| #[trigger] self.is_live(i) ==> self.node_wf(i)
        &&& self.sum_dual_variables == nodes_dual_sum(
            self.nodes@,
            self.nodes_length as int,
            self.dual_variable_global_progress as int,
        )
        &&& self.sum_grow_speed == nodes_speed_sum(self.nodes@, self.nodes_length as int)
    }

    /// return the count of all nodes
    pub fn nodes_count(&self) -> (r: NodeNum)
        ensures
            r == self.nodes_length,
    {
        self.nodes_length
    }

    /// get node ptr by index, `None` if the node has been removed
    pub fn get_node(&self, relative_node_index: NodeIndex) -> (r: Option<DualNodePtr>)
        requires
            relative_node_index < self.nodes_length <= self.nodes@.len(),
        ensures
            r is Some <==> self.is_live(relative_node_index as int),
            r matches Some(p) ==> p.index == relative_node_index,
    {
        match &self.nodes[relative_node_index] {
            Some(_) => Some(DualNodePtr { index: relative_node_index }),
            None => None,
        }
    }

    /// set the corresponding node index to None
    pub fn remove_node(&mut self, relative_node_index: NodeIndex)
        requires
            relative_node_index < old(self).nodes_length <= old(self).nodes@.len(),
        ensures
            final(self).nodes@ == old(self).nodes@.update(relative_node_index as int, None),
            final(self).nodes_length == old(self).nodes_length,
            final(self).sum_grow_speed == old(self).sum_grow_speed,
            final(self).sum_dual_variables == old(self).sum_dual_variables,
            final(self).dual_variable_global_progress == old(self).dual_variable_global_progress,
            final(self).is_fusion == old(self).is_fusion,
    {
        self.nodes.set(relative_node_index, None);
    }

    /// create an empty interface
    pub fn new_empty() -> (r: Self)
        ensures
            r.wf(),
            r.nodes_length == 0,
            r.sum_dual_variables == 0,
            r.sum_grow_speed == 0,
            r.dual_variable_global_progress == 0,
            r.unit_index == 0,
            r.nodes@.len() == 0,
            !r.is_fusion,
            !r.debug_print_actions,
            r.index_bias == 0,
    {
        DualModuleInterface {
            unit_index: 0,
            nodes: Vec::new(),
            nodes_length: 0,
            is_fusion: false,
            sum_grow_speed: 0,
            sum_dual_variables: 0,
            debug_print_actions: false,
            dual_variable_global_progress: 0,
            index_bias: 0,
        }
    }

    /// a constant clear function, without dropping anything
    pub fn clear(&mut self)
        ensures
            final(self).wf(),
            final(self).nodes_length == 0,
            final(self).sum_dual_variables == 0,
            final(self).sum_grow_speed == 0,
            final(self).dual_variable_global_progress == 0,
            final(self).nodes@ == old(self).nodes@,
            !final(self).is_fusion,
            final(self).index_bias == 0,
            final(self).unit_index == old(self).unit_index,
            final(self).debug_print_actions == old(self).debug_print_actions,
    {
        self.nodes_length = 0;
        self.sum_grow_speed = 0;
        self.sum_dual_variables = 0;
        self.dual_variable_global_progress = 0;
        self.is_fusion = false;
        self.index_bias = 0;
    }

    /// list every slot in order: the handle of a live node, `None` for a removed one
    pub fn flatten_nodes(&self, flattened_nodes: &mut Vec<Option<DualNodePtr>>)
        requires
            self.nodes_length <= self.nodes@.len(),
        ensures
            final(flattened_nodes)@.len() == old(flattened_nodes)@.len() + self.nodes_length,
            forall|i: int|
                0 <= i < old(flattened_nodes)@.len() ==> final(flattened_nodes)@[i] == old(flattened_nodes)@[i],
            forall|i: int|
                0 <= i < self.nodes_length ==> (#[trigger] final(flattened_nodes)@[old(flattened_nodes)@.len() + i] == if self.is_live(i) {
                    Some(DualNodePtr { index: i as usize })
                } else {
                    None
                }),
    {
        let ghost start = flattened_nodes@;
        let mut node_index: usize = 0;
        while node_index < self.nodes_length
            invariant
                node_index <= self.nodes_length <= self.nodes@.len(),
                flattened_nodes@.len() == start.len() + node_index,
                forall|i: int| 0 <= i < start.len() ==> flattened_nodes@[i] == start[i],
                forall|i: int|
                    0 <= i < node_index ==> (#[trigger] flattened_nodes@[start.len() + i]
                        == if self.is_live(i) {
                        Some(DualNodePtr { index: i as usize })
                    } else {
                        None
                    }),
            decreases self.nodes_length - node_index,
        {
            match &self.nodes[node_index] {
                Some(_) => flattened_nodes.push(Some(DualNodePtr { index: node_index })),
                None => flattened_nodes.push(None),
            }
            node_index = node_index + 1;
        }
    }

    /// whether the handle refers to a live node of this interface
    pub fn check_ptr_belonging(&self, dual_node_ptr: &DualNodePtr) -> (r: bool)
        requires
            self.nodes_length <= self.nodes@.len(),
        ensures
            r == self.is_live(dual_node_ptr.index as int),
    {
        if dual_node_ptr.index >= self.nodes_length {
            return false;
        }
        self.nodes[dual_node_ptr.index].is_some()
    }

    pub fn sum_dual_variables(&self) -> (r: Weight)
        ensures
            r == self.sum_dual_variables,
    {
        self.sum_dual_variables
    }

    /// growing by `length` keeps every dual variable and the progress within bounds
    pub open spec fn can_grow(&self, length: int) -> bool {
        &&& 0 <= self.dual_variable_global_progress + length <= DUAL_BOUND
        &&& forall|i: int|
            #[trigger] self.is_live(i) ==> -DUAL_BOUND <= self.node(i).spec_dual_variable(
                self.dual_variable_global_progress + length,
            ) <= DUAL_BOUND
    }

    /// a dual module grew by `length`: advance the global progress and the sum of dual variables
    pub fn notify_grown(&mut self, length: Weight)
        requires
            old(self).wf(),
            old(self).can_grow(length as int),
        ensures
            final(self).wf(),
            final(self).dual_variable_global_progress == old(self).dual_variable_global_progress
                + length,
            final(self).sum_dual_variables == old(self).sum_dual_variables + length * old(self).sum_grow_speed,
            final(self).sum_grow_speed == old(self).sum_grow_speed,
            final(self).nodes@ == old(self).nodes@,
            final(self).nodes_length == old(self).nodes_length,
            final(self).is_fusion == old(self).is_fusion,
            forall|i: int|
                #[trigger] final(self).is_live(i) ==> final(self).dual_variable_of(i) == old(self).dual_variable_of(i) + length * old(self).node(i).grow_state.speed(),
    {
        proof {
            let n = self.nodes_length as int;
            let p = self.dual_variable_global_progress as int;
            lemma_dual_sum_grow(self.nodes@, n, p, length as int);
            assert forall|i: int| 0 <= i < n implies match #[trigger] self.nodes@[i] {
                Some(node) => -DUAL_BOUND <= node.spec_dual_variable(p) <= DUAL_BOUND,
                None => true,
            } by {
                if self.nodes@[i] is Some {
                    assert(self.is_live(i));
                }
            }
            lemma_dual_sum_bound(self.nodes@, n, p);
            let sp = self.sum_grow_speed as int;
            let l = length as int;
            assert(-NODE_NUM_BOUND * DUAL_BOUND <= l * sp <= NODE_NUM_BOUND * DUAL_BOUND)
                by (nonlinear_arith)
                requires
                    -n <= sp <= n,
                    0 <= n <= NODE_NUM_BOUND,
                    -DUAL_BOUND <= l <= DUAL_BOUND,
            ;
            assert forall|i: int| 0 <= i < n implies match #[trigger] self.nodes@[i] {
                Some(node) => -DUAL_BOUND <= node.spec_dual_variable(p + length) <= DUAL_BOUND,
                None => true,
            } by {
                if self.nodes@[i] is Some {
                    assert(self.is_live(i));
                }
            }
            lemma_dual_sum_bound(self.nodes@, n, p + length);
            assert(n * DUAL_BOUND <= NODE_NUM_BOUND * DUAL_BOUND) by (nonlinear_arith)
                requires
                    0 <= n <= NODE_NUM_BOUND,
            ;
            assert forall|i: int| #[trigger] self.is_live(i) implies self.node(i).spec_dual_variable(
                p + length,
            ) == self.node(i).spec_dual_variable(p) + length * self.node(i).grow_state.speed() by {
                let node = self.node(i);
                let s = node.grow_state.speed();
                assert(node.dual_variable_cache.0 + s * (p + length - node.dual_variable_cache.1)
                    == node.dual_variable_cache.0 + s * (p - node.dual_variable_cache.1) + length
                    * s) by (nonlinear_arith);
            }
            assert(length * self.sum_grow_speed == length * nodes_speed_sum(self.nodes@, n));
        }
        self.sum_dual_variables = self.sum_dual_variables + length * self.sum_grow_speed;
        self.dual_variable_global_progress = self.dual_variable_global_progress + length;
        proof {
            assert forall|i: int| #[trigger] self.is_live(i) implies self.node_wf(i)
                && self.dual_variable_of(i) == old(self).dual_variable_of(i) + length * old(self).node(i).grow_state.speed() by {
                assert(old(self).is_live(i));
                assert(old(self).node_wf(i));
            }
        }
    }
}

/// the list of conflicts and the pending `VertexShrinkStop` events, keyed by representative vertex
pub type ConflictList = Vec<MaxUpdateLength>;

#[derive(Debug)]
pub enum GroupMaxUpdateLength {
    /// non-zero maximum update length, has_empty_boundary_node (useful in fusion)
    NonZeroGrow((Weight, bool)),
    /// conflicting reasons and pending VertexShrinkStop events (empty in a single serial dual module)
    Conflicts((ConflictList, BTreeMap<VertexIndex, MaxUpdateLength>)),
}

/// the effect of adding a conflict to the list and the pending stops
pub open spec fn spec_add_pending_stop(
    list: Seq<MaxUpdateLength>,
    pending: Map<VertexIndex, MaxUpdateLength>,
    m: MaxUpdateLength,
    representative: VertexIndex,
) -> (Seq<MaxUpdateLength>, Map<VertexIndex, MaxUpdateLength>) {
    match m {
        MaxUpdateLength::VertexShrinkStop((_, pair)) => {
            if pending.contains_key(representative) {
                match (pair, pending[representative]) {
                    (Some(p), MaxUpdateLength::VertexShrinkStop((_, Some(q)))) => {
                        if p.0 != q.0 {
                            (list.push(MaxUpdateLength::Conflicting(p, q)), pending.remove(representative))
                        } else {
                            (list, pending)
                        }
                    },
                    (Some(_), _) => (list, pending.insert(representative, m)),
                    (None, _) => (list, pending),
                }
            } else {
                (list, pending.insert(representative, m))
            }
        },
        _ => (list.push(m), pending),
    }
}

/// what a group of maximum update lengths holds: the growth when no conflict was reported, the
/// conflicts, and the pending stops
pub type GroupSummary = (Option<(Weight, bool)>, Seq<MaxUpdateLength>, Map<VertexIndex, MaxUpdateLength>);

/// the effect of adding a maximum update length to a group: growths keep the minimum length, any
/// other event turns the group into a list of conflicts; once there are conflicts, growths are
/// ignored
pub open spec fn add_summary(g: GroupSummary, m: MaxUpdateLength, representative: VertexIndex) -> GroupSummary {
    match (g.0, m) {
        (Some((cl, cf)), MaxUpdateLength::NonZeroGrow((l, f))) => (
            Some((if l < cl {
                l
            } else {
                cl
            }, cf || f)),
            g.1,
            g.2,
        ),
        (None, MaxUpdateLength::NonZeroGrow(_)) => g,
        _ => {
            let (c, p) = spec_add_pending_stop(g.1, g.2, m, representative);
            (None, c, p)
        },
    }
}

impl DualModuleInterface {
    /// a representative defect vertex of the node in slot `i`: the node itself if it is a defect
    /// vertex, otherwise the representative of the first node in the blossom circle
    pub open spec fn spec_representative_vertex(&self, i: int) -> VertexIndex
        decreases i,
    {
        if 0 <= i < self.nodes@.len() && self.nodes@[i] is Some {
            match self.nodes@[i]->Some_0.class {
                DualNodeClass::DefectVertex { defect_index } => defect_index,
                DualNodeClass::Blossom { nodes_circle, .. } => {
                    if nodes_circle@.len() > 0 && nodes_circle@[0].index < i {
                        self.spec_representative_vertex(nodes_circle@[0].index as int)
                    } else {
                        0
                    }
                },
            }
        } else {
            0
        }
    }
}

impl DualNodePtr {
    /// find a representative vertex
    pub fn get_representative_vertex(&self, interface: &DualModuleInterface) -> (r: VertexIndex)
        requires
            interface.wf(),
            interface.is_live(self.index as int),
        ensures
            r == interface.spec_representative_vertex(self.index as int),
        decreases self.index,
    {
        let node = match &interface.nodes[self.index] {
            Some(node) => node,
            None => {
                return 0;
            },
        };
        assert(interface.node_wf(self.index as int));
        match &node.class {
            DualNodeClass::Blossom { nodes_circle, .. } => {
                let first = nodes_circle[0];
                assert(interface.is_live(nodes_circle@[0].index as int));
                first.get_representative_vertex(interface)
            },
            DualNodeClass::DefectVertex { defect_index } => *defect_index,
        }
    }
}

/// the least key of the pending stops, if any
fn least_key(pending_stops: &BTreeMap<VertexIndex, MaxUpdateLength>) -> (r: Option<VertexIndex>)
    ensures
        r is None <==> pending_stops@.dom().len() == 0,
        r matches Some(m) ==> pending_stops@.contains_key(m) && forall|j: VertexIndex|
            #[trigger] pending_stops@.contains_key(j) ==> m <= j,
{
    let mut first: Option<VertexIndex> = None;
    let ghost mut seen: Seq<VertexIndex> = Seq::empty();
    for k in it: pending_stops.keys()
        invariant
            it.seq().unref().to_set() == pending_stops@.dom(),
            seen.len() == it.index(),
            forall|i: int| 0 <= i < it.index() ==> seen[i] == *#[trigger] it.seq()[i],
            it.index() == it.seq().len() ==> seen.to_set() == pending_stops@.dom(),
            first is None <==> it.index() == 0,
            first matches Some(m) ==> pending_stops@.contains_key(m) && forall|i: int|
                0 <= i < seen.len() ==> m <= #[trigger] seen[i],
    {
        proof {
            assert(it.seq().unref()[it.index() as int] == *k);
            assert(it.seq().unref().to_set().contains(*k));
            seen = seen.push(*k);
        }
        first = match first {
            Some(m) => if *k < m {
                Some(*k)
            } else {
                Some(m)
            },
            None => Some(*k),
        };
        assert(forall|i: int| 0 <= i < seen.len() ==> seen[i] == it.seq().unref()[i]);
        assert(seen.len() == it.seq().len() ==> seen =~= it.seq().unref());
    }
    proof {
        if let Some(m) = first {
            assert forall|j: VertexIndex| #[trigger] pending_stops@.contains_key(j) implies m <= j by {
                assert(seen.to_set().contains(j));
                let i = choose|i: int| 0 <= i < seen.len() && seen[i] == j;
                assert(m <= seen[i]);
            }
        } else {
            assert(seen.len() == 0);
            assert(seen.to_set() =~= Set::empty());
        }
    }
    first
}

impl GroupMaxUpdateLength {
    pub fn new() -> (r: Self)
        ensures
            r == GroupMaxUpdateLength::NonZeroGrow((Weight::MAX, false)),
    {
        GroupMaxUpdateLength::NonZeroGrow((Weight::MAX, false))
    }

    /// add a conflict to the list; two `VertexShrinkStop` events with potential conflicts on the
    /// same vertex from different nodes form a single `Conflicting` event
    pub fn add_pending_stop(
        list: &mut ConflictList,
        pending_stops: &mut BTreeMap<VertexIndex, MaxUpdateLength>,
        max_update_length: MaxUpdateLength,
        interface: &DualModuleInterface,
    )
        requires
            interface.wf(),
            max_update_length matches MaxUpdateLength::VertexShrinkStop((n, _)) ==> interface.is_live(
                n.index as int,
            ),
        ensures
            ({
                let representative = match max_update_length {
                    MaxUpdateLength::VertexShrinkStop((n, _)) => interface.spec_representative_vertex(
                        n.index as int,
                    ),
                    _ => 0,
                };
                (final(list)@, final(pending_stops)@) == spec_add_pending_stop(
                    old(list)@,
                    old(pending_stops)@,
                    max_update_length,
                    representative,
                )
            }),
    {
        match max_update_length {
            MaxUpdateLength::VertexShrinkStop((dual_node_ptr, pair)) => {
                let vertex_index = dual_node_ptr.get_representative_vertex(interface);
                let existing: Option<MaxUpdateLength> = match pending_stops.get(&vertex_index) {
                    Some(existing) => Some(*existing),
                    None => None,
                };
                match existing {
                    Some(existing_length) => {
                        match pair {
                            Some(weak_pair) => {
                                match existing_length {
                                    MaxUpdateLength::VertexShrinkStop((_, Some(existing_weak_pair))) => {
                                        if weak_pair.0 != existing_weak_pair.0 {
                                            list.push(MaxUpdateLength::Conflicting(weak_pair, existing_weak_pair));
                                            pending_stops.remove(&vertex_index);
                                        }
                                    },
                                    _ => {
                                        pending_stops.insert(vertex_index, max_update_length);
                                    },
                                }
                            },
                            None => {},
                        }
                    },
                    None => {
                        pending_stops.insert(vertex_index, max_update_length);
                    },
                }
            },
            _ => {
                list.push(max_update_length);
            },
        }
    }

    /// the view of the group: the growth when no conflict was reported
    pub open spec fn growth(self) -> Option<(Weight, bool)> {
        match self {
            GroupMaxUpdateLength::NonZeroGrow(x) => Some(x),
            _ => None,
        }
    }

    /// the conflicts reported so far
    pub open spec fn conflicts(self) -> Seq<MaxUpdateLength> {
        match self {
            GroupMaxUpdateLength::Conflicts((list, _)) => list@,
            _ => Seq::empty(),
        }
    }

    /// the pending `VertexShrinkStop` events
    pub open spec fn pending(self) -> Map<VertexIndex, MaxUpdateLength> {
        match self {
            GroupMaxUpdateLength::Conflicts((_, p)) => p@,
            _ => Map::empty(),
        }
    }

    /// the growth, the conflicts and the pending stops of the group
    pub open spec fn summary(self) -> GroupSummary {
        (self.growth(), self.conflicts(), self.pending())
    }

    /// add a single maximum update length: growths keep the minimum length, any other event turns
    /// the group into a list of conflicts; once there are conflicts, growths are ignored
    pub fn add(&mut self, max_update_length: MaxUpdateLength, interface: &DualModuleInterface)
        requires
            interface.wf(),
            max_update_length matches MaxUpdateLength::VertexShrinkStop((n, _)) ==> interface.is_live(
                n.index as int,
            ),
        ensures
            ({
                let representative = match max_update_length {
                    MaxUpdateLength::VertexShrinkStop((n, _)) => interface.spec_representative_vertex(
                        n.index as int,
                    ),
                    _ => 0,
                };
                match (*old(self), max_update_length) {
                    (
                        GroupMaxUpdateLength::NonZeroGrow((cl, cf)),
                        MaxUpdateLength::NonZeroGrow((l, f)),
                    ) => final(self).growth() == Some(
                        (if l < cl { l } else { cl }, cf || f),
                    ),
                    (GroupMaxUpdateLength::NonZeroGrow(_), _) => {
                        &&& final(self).growth() is None
                        &&& (final(self).conflicts(), final(self).pending()) == spec_add_pending_stop(
                            Seq::empty(),
                            Map::empty(),
                            max_update_length,
                            representative,
                        )
                    },
                    (GroupMaxUpdateLength::Conflicts(_), MaxUpdateLength::NonZeroGrow(_)) => {
                        &&& final(self).growth() is None
                        &&& final(self).conflicts() == old(self).conflicts()
                        &&& final(self).pending() == old(self).pending()
                    },
                    (GroupMaxUpdateLength::Conflicts(_), _) => {
                        &&& final(self).growth() is None
                        &&& (final(self).conflicts(), final(self).pending()) == spec_add_pending_stop(
                            old(self).conflicts(),
                            old(self).pending(),
                            max_update_length,
                            representative,
                        )
                    },
                }
            }),
            final(self).summary() == add_summary(
                old(self).summary(),
                max_update_length,
                match max_update_length {
                    MaxUpdateLength::VertexShrinkStop((n, _)) => interface.spec_representative_vertex(
                        n.index as int,
                    ),
                    _ => 0,
                },
            ),
    {
        match self {
            GroupMaxUpdateLength::NonZeroGrow((current_length, current_has_empty_boundary_node)) => {
                match max_update_length {
                    MaxUpdateLength::NonZeroGrow((length, has_empty_boundary_node)) => {
                        if length < *current_length {
                            *current_length = length;
                        }
                        *current_has_empty_boundary_node = *current_has_empty_boundary_node
                            || has_empty_boundary_node;
                    },
                    _ => {
                        let mut list: ConflictList = Vec::new();
                        let mut pending_stops: BTreeMap<VertexIndex, MaxUpdateLength> = BTreeMap::new();
                        Self::add_pending_stop(&mut list, &mut pending_stops, max_update_length, interface);
                        *self = GroupMaxUpdateLength::Conflicts((list, pending_stops));
                    },
                }
            },
            GroupMaxUpdateLength::Conflicts((list, pending_stops)) => {
                match max_update_length {
                    MaxUpdateLength::NonZeroGrow(_) => {},
                    _ => {
                        Self::add_pending_stop(list, pending_stops, max_update_length, interface);
                    },
                }
            },
        }
    }

    /// take one conflict out of the group: the last one of the list, or when the list is empty,
    /// the pending stop of the least vertex
    pub fn pop(&mut self) -> (r: Option<MaxUpdateLength>)
        requires
            *old(self) is Conflicts,
        ensures
            *final(self) is Conflicts,
            old(self).conflicts().len() > 0 ==> {
                &&& r == Some(old(self).conflicts().last())
                &&& final(self).conflicts() == old(self).conflicts().drop_last()
                &&& final(self).pending() == old(self).pending()
            },
            old(self).conflicts().len() == 0 && old(self).pending().dom().len() > 0 ==> exists|k: VertexIndex|
                {
                    &&& old(self).pending().contains_key(k)
                    &&& forall|j: VertexIndex| #[trigger] old(self).pending().contains_key(j) ==> k <= j
                    &&& r == Some(old(self).pending()[k])
                    &&& final(self).pending() == old(self).pending().remove(k)
                    &&& final(self).conflicts() == old(self).conflicts()
                },
            old(self).conflicts().len() == 0 && old(self).pending().dom().len() == 0 ==> r is None
                && final(self).summary() == old(self).summary(),
    {
        match self {
            GroupMaxUpdateLength::NonZeroGrow(_) => None,
            GroupMaxUpdateLength::Conflicts((list, pending_stops)) => {
                match list.pop() {
                    Some(last) => Some(last),
                    None => {
                        match least_key(pending_stops) {
                            Some(key) => pending_stops.remove(&key),
                            None => None,
                        }
                    },
                }
            },
        }
    }

    /// the conflict that [`GroupMaxUpdateLength::pop`] would take out, leaving the group as it is
    pub fn peek(&self) -> (r: Option<MaxUpdateLength>)
        requires
            *self is Conflicts,
        ensures
            self.conflicts().len() > 0 ==> r == Some(self.conflicts().last()),
            self.conflicts().len() == 0 && self.pending().dom().len() > 0 ==> exists|k: VertexIndex|
                {
                    &&& self.pending().contains_key(k)
                    &&& forall|j: VertexIndex| #[trigger] self.pending().contains_key(j) ==> k <= j
                    &&& r == Some(self.pending()[k])
                },
            self.conflicts().len() == 0 && self.pending().dom().len() == 0 ==> r is None,
    {
        match self {
            GroupMaxUpdateLength::NonZeroGrow(_) => None,
            GroupMaxUpdateLength::Conflicts((list, pending_stops)) => {
                if list.len() > 0 {
                    Some(list[list.len() - 1])
                } else {
                    match least_key(pending_stops) {
                        Some(key) => match pending_stops.get(&key) {
                            Some(stop) => Some(*stop),
                            None => None,
                        },
                        None => None,
                    }
                }
            },
        }
    }

    /// the group holds neither a finite growth nor any conflict; a group that has a node with an
    /// empty boundary is not considered empty
    pub fn is_empty(&self) -> (r: bool)
        ensures
            r == (self.growth() matches Some((l, f)) && l == Weight::MAX && !f),
    {
        match self {
            GroupMaxUpdateLength::NonZeroGrow((length, has_empty)) => *length == Weight::MAX && !*has_empty,
            _ => false,
        }
    }

    /// if `has_empty_boundary_node`, then it's still considered active
    pub fn is_active(&self) -> (r: bool)
        ensures
            r == !(self.growth() matches Some((l, f)) && l == Weight::MAX && !f),
    {
        match self {
            GroupMaxUpdateLength::NonZeroGrow((length, has_empty)) => !(*length == Weight::MAX
                && !*has_empty),
            _ => true,
        }
    }

    pub fn get_none_zero_growth(&self) -> (r: Option<Weight>)
        ensures
            match self.growth() {
                Some((l, _)) => r == Some(l),
                None => r is None,
            },
    {
        match self {
            GroupMaxUpdateLength::NonZeroGrow((length, _)) => Some(*length),
            _ => None,
        }
    }
}

impl DualModuleInterface {
    /// the sum of growing speeds is bounded by the number of slots
    pub proof fn lemma_speed_bound(&self)
        requires
            self.wf(),
        ensures
            -(self.nodes_length as int) <= self.sum_grow_speed <= self.nodes_length as int,
    {
        let n = self.nodes_length as int;
        let p = self.dual_variable_global_progress as int;
        assert forall|i: int| 0 <= i < n implies match #[trigger] self.nodes@[i] {
            Some(node) => -DUAL_BOUND <= node.spec_dual_variable(p) <= DUAL_BOUND,
            None => true,
        } by {
            if self.nodes@[i] is Some {
                assert(self.is_live(i));
            }
        }
        lemma_dual_sum_bound(self.nodes@, n, p);
    }

    /// set the grow state of a live node, keeping its dual variable: the node's cache restarts at
    /// the current progress and the dual module is told first
    pub fn set_grow_state(
        &mut self,
        dual_node_ptr: &DualNodePtr,
        grow_state: DualNodeGrowState,
        dual_module: &mut DualModuleSerial,
    )
        requires
            old(self).wf(),
            old(dual_module).wf(),
            old(dual_module).synced(old(self)),
            old(self).is_live(dual_node_ptr.index as int),
            grow_state != DualNodeGrowState::Stay ==> old(self).node(
                dual_node_ptr.index as int,
            ).parent_blossom is None,
        ensures
            final(self).wf(),
            final(dual_module).wf(),
            final(dual_module).synced(final(self)),
            final(self).nodes_length == old(self).nodes_length,
            final(self).nodes@.len() == old(self).nodes@.len(),
            final(self).dual_variable_global_progress == old(self).dual_variable_global_progress,
            final(self).is_fusion == old(self).is_fusion,
            final(self).sum_dual_variables == old(self).sum_dual_variables,
            final(self).sum_grow_speed == old(self).sum_grow_speed - old(self).node(
                dual_node_ptr.index as int,
            ).grow_state.speed() + grow_state.speed(),
            final(self).nodes@[dual_node_ptr.index as int] == Some(
                DualNode {
                    grow_state,
                    dual_variable_cache: (
                        old(self).dual_variable_of(dual_node_ptr.index as int) as Weight,
                        old(self).dual_variable_global_progress,
                    ),
                    ..old(self).node(dual_node_ptr.index as int)
                },
            ),
            forall|j: int|
                0 <= j < final(self).nodes@.len() && j != dual_node_ptr.index ==> final(self).nodes@[j]
                    == old(self).nodes@[j],
            forall|j: int| #[trigger]
                final(self).is_live(j) ==> final(self).dual_variable_of(j) == old(self).dual_variable_of(j),
            final(dual_module).vertices@ == old(dual_module).vertices@,
            final(dual_module).edges@ == old(dual_module).edges@,
            final(dual_module).nodes@ == old(dual_module).nodes@,
    {
        let i = dual_node_ptr.index;
        proof {
            assert(self.node_wf(i as int));
            self.lemma_speed_bound();
        }
        let (old_state, current) = match &self.nodes[i] {
            Some(node) => (node.grow_state, node.get_dual_variable(self)),
            None => (DualNodeGrowState::Stay, 0),
        };
        // call this before the dual node actually changes, to give history information
        let ghost serial_start = *dual_module;
        dual_module.set_grow_state(self, dual_node_ptr, grow_state);
        let ghost pre = *self;
        let old_speed: Weight = match old_state {
            DualNodeGrowState::Grow => 1,
            DualNodeGrowState::Stay => 0,
            DualNodeGrowState::Shrink => -1,
        };
        let new_speed: Weight = match grow_state {
            DualNodeGrowState::Grow => 1,
            DualNodeGrowState::Stay => 0,
            DualNodeGrowState::Shrink => -1,
        };
        self.sum_grow_speed = self.sum_grow_speed - old_speed + new_speed;
        let progress = self.dual_variable_global_progress;
        match &mut self.nodes[i] {
            Some(node) => {
                node.grow_state = grow_state;
                node.dual_variable_cache = (current, progress);
            },
            None => {},
        }
        proof {
            let n = self.nodes_length as int;
            let p = progress as int;
            lemma_sums_update(pre.nodes@, n, i as int, self.nodes@[i as int], p);
            assert(self.nodes@ == pre.nodes@.update(i as int, self.nodes@[i as int]));
            assert(pre.node(i as int).spec_dual_variable(p) == current);
            assert(self.node(i as int).dual_variable_cache == (current, progress));
            assert(self.node(i as int).spec_dual_variable(p) == current) by {
                let s = self.node(i as int).grow_state.speed();
                assert(s * (p - p) == 0) by (nonlinear_arith);
            }
            assert forall|j: int| #[trigger] self.is_live(j) implies self.node_wf(j)
                && self.dual_variable_of(j) == pre.dual_variable_of(j) by {
                assert(pre.is_live(j));
                assert(pre.node_wf(j));
                if j != i as int {
                    if let DualNodeClass::Blossom { nodes_circle, .. } = self.node(j).class {
                        assert forall|k: int| 0 <= k < nodes_circle@.len() implies self.is_live(
                            (#[trigger] nodes_circle@[k]).index as int,
                        ) by {
                            assert(pre.is_live(nodes_circle@[k].index as int));
                        }
                    }
                } else {
                    if let DualNodeClass::Blossom { nodes_circle, .. } = self.node(j).class {
                        assert forall|k: int| 0 <= k < nodes_circle@.len() implies self.is_live(
                            (#[trigger] nodes_circle@[k]).index as int,
                        ) by {
                            assert(pre.is_live(nodes_circle@[k].index as int));
                        }
                    }
                }
            }
            assert(self.sum_dual_variables == nodes_dual_sum(self.nodes@, n, p));
            assert(self.sum_grow_speed == nodes_speed_sum(self.nodes@, n));
            assert forall|k: int| #[trigger] self.is_live(k) implies dual_module.dual_of(k)
                == self.dual_variable_of(k) by {
                assert(pre.is_live(k));
            }
            assert forall|k: int| #[trigger] dual_module.is_moving(self, k) implies dual_module.active_list@.contains(
                k as usize,
            ) by {
                if k != i as int {
                    assert(serial_start.is_moving(&pre, k));
                    assert(serial_start.active_list@.contains(k as usize));
                    let w = choose|w: int|
                        0 <= w < serial_start.active_list@.len() && serial_start.active_list@[w] == k as usize;
                    assert(dual_module.active_list@[w] == k as usize);
                } else if old_state != DualNodeGrowState::Stay {
                    assert(serial_start.is_moving(&pre, k));
                    let w = choose|w: int|
                        0 <= w < serial_start.active_list@.len() && serial_start.active_list@[w] == k as usize;
                    assert(dual_module.active_list@[w] == k as usize);
                } else {
                    assert(dual_module.active_list@.last() == i);
                }
            }
            assert forall|k: int| 0 <= k < dual_module.nodes_length implies (dual_module.nodes@[k] is Some
                <==> #[trigger] self.is_live(k)) by {
                assert(serial_start.nodes@[k] is Some <==> pre.is_live(k));
            }
        }
    }
}

impl DualModuleInterface {
    /// put a new node into the next slot
    fn push_node(&mut self, node: DualNode)
        requires
            old(self).nodes_length <= old(self).nodes@.len(),
            old(self).nodes_length < NODE_NUM_BOUND,
        ensures
            final(self).nodes_length == old(self).nodes_length + 1,
            final(self).nodes_length <= final(self).nodes@.len(),
            final(self).nodes@[old(self).nodes_length as int] == Some(node),
            forall|j: int|
                0 <= j < old(self).nodes_length ==> #[trigger] final(self).nodes@[j] == old(self).nodes@[j],
            final(self).sum_grow_speed == old(self).sum_grow_speed,
            final(self).sum_dual_variables == old(self).sum_dual_variables,
            final(self).dual_variable_global_progress == old(self).dual_variable_global_progress,
            final(self).is_fusion == old(self).is_fusion,
            final(self).debug_print_actions == old(self).debug_print_actions,
    {
        let k = self.nodes_length;
        if k < self.nodes.len() {
            self.nodes.set(k, Some(node));
        } else {
            self.nodes.push(Some(node));
        }
        self.nodes_length = k + 1;
    }

    /// the sums over the first `n + 1` slots after a live node is put into slot `n`
    proof fn lemma_sums_push(a: Seq<Option<DualNode>>, b: Seq<Option<DualNode>>, n: int, progress: int)
        requires
            0 <= n < b.len(),
            n <= a.len(),
            b[n] is Some,
            forall|j: int| 0 <= j < n ==> #[trigger] b[j] == a[j],
        ensures
            nodes_dual_sum(b, n + 1, progress) == nodes_dual_sum(a, n, progress) + b[n]->Some_0.spec_dual_variable(progress),
            nodes_speed_sum(b, n + 1) == nodes_speed_sum(a, n) + b[n]->Some_0.grow_state.speed(),
    {
        lemma_sums_prefix(a, b, n, progress);
    }

    /// create a growing defect node on vertex `vertex_idx` in the next slot and add it to the
    /// dual module
    pub fn create_defect_node(&mut self, vertex_idx: VertexIndex, dual_module: &mut DualModuleSerial) -> (r: DualNodePtr)
        requires
            old(self).wf(),
            old(dual_module).wf(),
            old(dual_module).synced(old(self)),
            old(self).nodes_length < NODE_NUM_BOUND,
            vertex_idx < old(dual_module).vertices@.len(),
        ensures
            final(self).wf(),
            final(dual_module).wf(),
            final(dual_module).synced(final(self)),
            r.index == old(self).nodes_length,
            final(self).nodes_length == old(self).nodes_length + 1,
            final(self).node(r.index as int) == (DualNode {
                index: r.index,
                class: DualNodeClass::DefectVertex { defect_index: vertex_idx },
                grow_state: DualNodeGrowState::Grow,
                parent_blossom: None,
                dual_variable_cache: (0, old(self).dual_variable_global_progress),
                defect_size: 1,
            }),
            final(self).is_live(r.index as int),
            forall|j: int|
                0 <= j < old(self).nodes_length ==> #[trigger] final(self).nodes@[j] == old(self).nodes@[j],
            final(self).sum_grow_speed == old(self).sum_grow_speed + 1,
            final(self).sum_dual_variables == old(self).sum_dual_variables,
            final(self).dual_variable_global_progress == old(self).dual_variable_global_progress,
            final(self).is_fusion == old(self).is_fusion,
            final(dual_module).vertices@.len() == old(dual_module).vertices@.len(),
            final(dual_module).edges@.len() == old(dual_module).edges@.len(),
            final(dual_module).edge_triples() == old(dual_module).edge_triples(),
            final(dual_module).edge_modifier == old(dual_module).edge_modifier,
    {
        proof {
            self.lemma_speed_bound();
        }
        let ghost pre = *self;
        let ghost serial_start = *dual_module;
        let local_node_index = self.nodes_length;
        let node = DualNode {
            index: local_node_index,
            class: DualNodeClass::DefectVertex { defect_index: vertex_idx },
            grow_state: DualNodeGrowState::Grow,
            parent_blossom: None,
            dual_variable_cache: (0, self.dual_variable_global_progress),
            defect_size: 1,
        };
        self.push_node(node);
        self.sum_grow_speed = self.sum_grow_speed + 1;
        let ptr = DualNodePtr { index: local_node_index };
        proof {
            let n = pre.nodes_length as int;
            let p = self.dual_variable_global_progress as int;
            Self::lemma_sums_push(pre.nodes@, self.nodes@, n, p);
            assert(self.node(n).spec_dual_variable(p) == 0) by {
                assert(1 * (p - p) == 0);
            }
            assert forall|j: int| #[trigger] self.is_live(j) implies self.node_wf(j) by {
                if j < n {
                    assert(pre.is_live(j));
                    assert(pre.node_wf(j));
                    if let DualNodeClass::Blossom { nodes_circle, .. } = self.node(j).class {
                        assert forall|k: int| 0 <= k < nodes_circle@.len() implies self.is_live(
                            (#[trigger] nodes_circle@[k]).index as int,
                        ) by {
                            assert(pre.is_live(nodes_circle@[k].index as int));
                        }
                    }
                }
            }
            assert(self.wf());
            assert forall|k: int| 0 <= k < dual_module.nodes_length implies (dual_module.nodes@[k] is Some
                <==> #[trigger] self.is_live(k)) by {
                assert(dual_module.nodes@[k] is Some <==> pre.is_live(k));
            }
        }
        dual_module.add_dual_node(self, &ptr);
        proof {
            let n = pre.nodes_length as int;
            assert forall|k: int| #[trigger] self.is_live(k) implies dual_module.dual_of(k)
                == self.dual_variable_of(k) by {
                if k < n {
                    assert(pre.is_live(k));
                    assert(serial_start.dual_of(k) == pre.dual_variable_of(k));
                    assert(dual_module.nodes@[k] is Some);
                } else {
                    assert(self.dual_variable_of(k) == 0) by {
                        assert(1 * (self.dual_variable_global_progress - self.dual_variable_global_progress) == 0);
                    }
                }
            }
            assert forall|k: int| #[trigger] dual_module.is_moving(self, k) implies dual_module.active_list@.contains(
                k as usize,
            ) by {
                if k < n {
                    assert(serial_start.is_moving(&pre, k));
                    let w = choose|w: int|
                        0 <= w < serial_start.active_list@.len() && serial_start.active_list@[w] == k as usize;
                    assert(dual_module.active_list@[w] == k as usize);
                } else {
                    assert(dual_module.active_list@.last() == ptr.index);
                }
            }
        }
        ptr
    }
}

impl DualModuleInterface {
    /// growing by less keeps the bounds too
    pub proof fn lemma_can_grow_less(&self, g: int, l: int)
        requires
            self.wf(),
            self.can_grow(l),
            0 <= g <= l,
        ensures
            self.can_grow(g),
    {
        let p = self.dual_variable_global_progress as int;
        assert forall|i: int| #[trigger] self.is_live(i) implies -DUAL_BOUND <= self.node(i).spec_dual_variable(
            p + g,
        ) <= DUAL_BOUND by {
            assert(self.node_wf(i));
            let node = self.node(i);
            let c0 = node.dual_variable_cache.0 as int;
            let c1 = node.dual_variable_cache.1 as int;
            let s = node.grow_state.speed();
            let x = c0 + s * (p + g - c1);
            let y = c0 + s * (p - c1);
            let z = c0 + s * (p + l - c1);
            assert(x == y + s * g && z == y + s * l) by (nonlinear_arith)
                requires
                    x == c0 + s * (p + g - c1),
                    y == c0 + s * (p - c1),
                    z == c0 + s * (p + l - c1),
            ;
            assert((s >= 0 ==> 0 <= s * g <= s * l) && (s <= 0 ==> s * l <= s * g <= 0))
                by (nonlinear_arith)
                requires
                    -1 <= s <= 1,
                    0 <= g <= l,
            ;
        }
    }

    /// grow the dual module by `length` and advance the interface with it: every growing node
    /// gains `length`, every shrinking node loses it, in the module and in the interface alike
    pub fn grow(&mut self, length: Weight, dual_module: &mut DualModuleSerial) -> (r: Result<(), GrowError>)
        requires
            old(self).wf(),
            old(dual_module).wf(),
            old(dual_module).synced(old(self)),
            old(self).can_grow(length as int),
            length > 0,
        ensures
            final(self).wf(),
            final(dual_module).wf(),
            final(dual_module).coupled(final(self)),
            r is Ok ==> final(dual_module).synced(final(self)),
            r is Ok ==> final(self).dual_variable_global_progress == old(self).dual_variable_global_progress
                + length,
            r is Ok ==> final(self).sum_dual_variables == old(self).sum_dual_variables + length * old(
                self,
            ).sum_grow_speed,
            r is Ok ==> forall|i: int| #[trigger]
                final(self).is_live(i) ==> final(self).dual_variable_of(i) == old(self).dual_variable_of(i)
                    + length * old(self).node(i).grow_state.speed(),
            r is Err ==> *final(self) == *old(self),
            r matches Err(error) ==> exists|k: int|
                0 <= k < final(dual_module).nodes@.len() && #[trigger] final(dual_module).grow_failure_either(
                    k,
                    length as int,
                    error,
                ),
            final(self).nodes@ == old(self).nodes@,
            final(self).nodes_length == old(self).nodes_length,
            final(self).sum_grow_speed == old(self).sum_grow_speed,
            final(self).is_fusion == old(self).is_fusion,
    {
        let ghost serial_start = *dual_module;
        match dual_module.grow(self, length) {
            Ok(()) => {},
            Err(error) => {
                return Err(error);
            },
        }
        let ghost pre = *self;
        self.notify_grown(length);
        proof {
            assert forall|k: int| #[trigger] self.is_live(k) implies dual_module.dual_of(k)
                == self.dual_variable_of(k) by {
                assert(pre.is_live(k));
                assert(dual_module.nodes@[k] is Some);
                assert(serial_start.dual_of(k) == pre.dual_variable_of(k));
            }
            assert forall|k: int| 0 <= k < dual_module.nodes_length implies (dual_module.nodes@[k] is Some
                <==> #[trigger] self.is_live(k)) by {
                assert(dual_module.nodes@[k] is Some <==> pre.is_live(k));
            }
            assert forall|k: int| #[trigger] dual_module.is_moving(self, k) implies dual_module.active_list@.contains(
                k as usize,
            ) by {
                assert(dual_module.is_moving(&pre, k));
            }
        }
        Ok(())
    }

    /// grow a length globally but iteratively: grow by the largest safe length again and again
    /// until the whole length is grown; a conflict, or no positive safe length, stops it with an
    /// error
    pub fn grow_iterative(&mut self, length: Weight, dual_module: &mut DualModuleSerial) -> (r: Result<(), GrowError>)
        requires
            old(self).wf(),
            old(dual_module).wf(),
            old(dual_module).synced(old(self)),
            old(self).can_grow(length as int),
        ensures
            final(self).wf(),
            final(dual_module).wf(),
            final(dual_module).coupled(final(self)),
            final(self).nodes@ == old(self).nodes@,
            final(self).nodes_length == old(self).nodes_length,
            r is Ok ==> final(dual_module).synced(final(self)),
            r == Err::<(), GrowError>(GrowError::Conflicts) ==> final(dual_module).group_fold(
                final(self),
                final(dual_module).active_list@.len() as int,
            ).0 is None,
            r == Err::<(), GrowError>(GrowError::NoProgress) ==> (final(dual_module).group_fold(
                final(self),
                final(dual_module).active_list@.len() as int,
            ).0 matches Some((l, _)) && l <= 0),
            r is Err && r->Err_0 != GrowError::Conflicts && r->Err_0 != GrowError::NoProgress
                ==> exists|k: int, l: int|
                0 < l <= length && 0 <= k < final(dual_module).nodes@.len()
                    && #[trigger] final(dual_module).grow_failure_either(k, l, r->Err_0),
            r is Ok ==> final(self).dual_variable_global_progress == old(self).dual_variable_global_progress
                + if length > 0 {
                length as int
            } else {
                0
            },
    {
        let ghost start = *self;
        let mut remaining = length;
        if remaining < 0 {
            remaining = 0;
        }
        proof {
            if length < 0 {
                self.lemma_can_grow_less(0, 0);
            }
        }
        while remaining > 0
            invariant
                self.wf(),
                dual_module.wf(),
                dual_module.synced(self),
                self.can_grow(remaining as int),
                remaining >= 0,
                remaining == 0 || remaining <= length,
                self.nodes@ == start.nodes@,
                self.nodes_length == start.nodes_length,
                start == *old(self),
                self.dual_variable_global_progress + remaining == start.dual_variable_global_progress
                    + if length > 0 {
                    length as int
                } else {
                    0
                },
            decreases remaining,
        {
            let max_update_length = dual_module.compute_maximum_update_length(self);
            let safe_growth = match max_update_length.get_none_zero_growth() {
                Some(safe_growth) => safe_growth,
                None => {
                    return Err(GrowError::Conflicts);
                },
            };
            let growth = if remaining < safe_growth {
                remaining
            } else {
                safe_growth
            };
            if growth <= 0 {
                return Err(GrowError::NoProgress);
            }
            proof {
                self.lemma_can_grow_less(growth as int, remaining as int);
            }
            let ghost before = *self;
            match self.grow(growth, dual_module) {
                Ok(()) => {},
                Err(error) => {
                    proof {
                        let k = choose|k: int|
                            0 <= k < dual_module.nodes@.len() && #[trigger] dual_module.grow_failure_either(
                                k,
                                growth as int,
                                error,
                            );
                        assert(dual_module.grow_failure_either(k, growth as int, error));
                    }
                    return Err(error);
                },
            }
            remaining = remaining - growth;
            proof {
                assert forall|i: int| #[trigger] self.is_live(i) implies -DUAL_BOUND <= self.node(
                    i,
                ).spec_dual_variable(self.dual_variable_global_progress + remaining) <= DUAL_BOUND by {
                    assert(before.is_live(i));
                }
            }
        }
        Ok(())
    }
}

/// the number of defect vertices of the first `n` nodes of a circle, saturating at the largest
/// machine size
pub open spec fn circle_defect_size(interface: &DualModuleInterface, circle: Seq<DualNodePtr>, n: int) -> int
    decreases n,
{
    if n <= 0 {
        0
    } else {
        let sum = circle_defect_size(interface, circle, n - 1) + interface.node(circle[n - 1].index as int).defect_size;
        if sum > usize::MAX {
            usize::MAX as int
        } else {
            sum
        }
    }
}

/// a copy of a list of node handles
pub fn copy_ptrs(v: &Vec<DualNodePtr>) -> (r: Vec<DualNodePtr>)
    ensures
        r@ == v@,
{
    let mut r: Vec<DualNodePtr> = Vec::new();
    let mut i: usize = 0;
    while i < v.len()
        invariant
            i <= v@.len(),
            r@ == v@.take(i as int),
        decreases v.len() - i,
    {
        r.push(v[i]);
        i = i + 1;
        proof {
            assert(v@.take(i as int) == v@.take(i - 1).push(v@[i - 1]));
        }
    }
    proof {
        assert(v@.take(v@.len() as int) == v@);
    }
    r
}

/// some node of `circle` sits in slot `j`
pub open spec fn in_circle(circle: Seq<DualNodePtr>, j: int) -> bool {
    exists|c: int| 0 <= c < circle.len() && #[trigger] circle[c].index == j
}

impl DualModuleInterface {
    /// the machine-sized number of defect vertices in the nodes of a circle
    fn circle_defect_size_exec(&self, circle: &Vec<DualNodePtr>) -> (r: usize)
        requires
            self.wf(),
            forall|i: int| 0 <= i < circle@.len() ==> self.is_live(#[trigger] circle@[i].index as int),
        ensures
            r == circle_defect_size(self, circle@, circle@.len() as int),
    {
        let mut sum: usize = 0;
        let mut i: usize = 0;
        while i < circle.len()
            invariant
                self.wf(),
                i <= circle@.len(),
                forall|i: int| 0 <= i < circle@.len() ==> self.is_live(#[trigger] circle@[i].index as int),
                sum == circle_defect_size(self, circle@, i as int),
            decreases circle.len() - i,
        {
            assert(self.is_live(circle@[i as int].index as int));
            let size = match &self.nodes[circle[i].index] {
                Some(node) => node.defect_size,
                None => 0,
            };
            sum = sum.saturating_add(size);
            i = i + 1;
        }
        sum
    }

    /// make the live staying node in slot `j` a child of the blossom `parent`
    fn set_parent_blossom(&mut self, j: usize, parent: DualNodePtr)
        requires
            old(self).wf(),
            old(self).is_live(j as int),
            old(self).node(j as int).grow_state == DualNodeGrowState::Stay,
            j < parent.index < old(self).nodes_length,
        ensures
            final(self).wf(),
            final(self).nodes@ == old(self).nodes@.update(
                j as int,
                Some(DualNode { parent_blossom: Some(parent), ..old(self).node(j as int) }),
            ),
            final(self).nodes_length == old(self).nodes_length,
            final(self).sum_grow_speed == old(self).sum_grow_speed,
            final(self).sum_dual_variables == old(self).sum_dual_variables,
            final(self).dual_variable_global_progress == old(self).dual_variable_global_progress,
            final(self).is_fusion == old(self).is_fusion,
    {
        let ghost pre = *self;
        match &mut self.nodes[j] {
            Some(node) => {
                node.parent_blossom = Some(parent);
            },
            None => {},
        }
        proof {
            let n = self.nodes_length as int;
            let p = self.dual_variable_global_progress as int;
            assert(self.nodes@ == pre.nodes@.update(j as int, self.nodes@[j as int]));
            lemma_sums_update(pre.nodes@, n, j as int, self.nodes@[j as int], p);
            assert forall|i: int| #[trigger] self.is_live(i) implies self.node_wf(i) by {
                assert(pre.is_live(i));
                assert(pre.node_wf(i));
                if let DualNodeClass::Blossom { nodes_circle, .. } = self.node(i).class {
                    assert forall|k: int| 0 <= k < nodes_circle@.len() implies self.is_live(
                        (#[trigger] nodes_circle@[k]).index as int,
                    ) by {
                        assert(pre.is_live(nodes_circle@[k].index as int));
                    }
                }
            }
        }
    }

    /// create a growing blossom over a circle of live top-level nodes: the nodes of the circle
    /// stay and become its children, and the dual module prepares them to shrink and adds the
    /// blossom; empty `touching_children` pairs each node with itself
    pub fn create_blossom(
        &mut self,
        nodes_circle: Vec<DualNodePtr>,
        touching_children: Vec<(DualNodePtr, DualNodePtr)>,
        dual_module: &mut DualModuleSerial,
    ) -> (r: DualNodePtr)
        requires
            old(self).wf(),
            old(dual_module).wf(),
            old(dual_module).synced(old(self)),
            old(self).nodes_length < NODE_NUM_BOUND,
            nodes_circle@.len() >= 1,
            touching_children@.len() == 0 || touching_children@.len() == nodes_circle@.len(),
            forall|k: int|
                0 <= k < touching_children@.len() ==> (#[trigger] touching_children@[k]).0.index < old(
                    self,
                ).nodes_length && touching_children@[k].1.index < old(self).nodes_length,
            forall|i: int|
                0 <= i < nodes_circle@.len() ==> old(self).is_live(#[trigger] nodes_circle@[i].index as int)
                    && old(self).node(nodes_circle@[i].index as int).parent_blossom is None,
        ensures
            final(self).wf(),
            final(dual_module).wf(),
            final(dual_module).synced(final(self)),
            r.index == old(self).nodes_length,
            final(self).nodes_length == old(self).nodes_length + 1,
            final(self).is_live(r.index as int),
            final(self).node(r.index as int).index == r.index,
            final(self).node(r.index as int).class is Blossom,
            final(self).node(r.index as int).class->nodes_circle@ == nodes_circle@,
            final(self).node(r.index as int).grow_state == DualNodeGrowState::Grow,
            final(self).node(r.index as int).parent_blossom is None,
            final(self).node(r.index as int).dual_variable_cache == (0i64, old(self).dual_variable_global_progress),
            final(self).node(r.index as int).defect_size == circle_defect_size(
                old(self),
                nodes_circle@,
                nodes_circle@.len() as int,
            ),
            touching_children@.len() != 0 ==> final(self).node(r.index as int).class->touching_children@
                == touching_children@,
            touching_children@.len() == 0 ==> final(self).node(r.index as int).class->touching_children@
                == nodes_circle@.map_values(|p: DualNodePtr| (p, p)),
            forall|j: int|
                0 <= j < old(self).nodes_length && in_circle(nodes_circle@, j) ==> {
                    &&& final(self).is_live(j)
                    &&& #[trigger] final(self).node(j).grow_state == DualNodeGrowState::Stay
                    &&& final(self).node(j).parent_blossom == Some(r)
                    &&& final(self).dual_variable_of(j) == old(self).dual_variable_of(j)
                    &&& final(self).node(j).class == old(self).node(j).class
                },
            forall|j: int|
                0 <= j < old(self).nodes_length && !in_circle(nodes_circle@, j) ==> #[trigger] final(self).nodes@[j]
                    == old(self).nodes@[j],
            final(self).dual_variable_global_progress == old(self).dual_variable_global_progress,
    {
        let ghost start = *self;
        let n = nodes_circle.len();
        let touching = if touching_children.len() == 0 {
            // automatically fill the children, only works when nodes_circle consists of all
            // defect nodes
            let mut filled: Vec<(DualNodePtr, DualNodePtr)> = Vec::new();
            let mut i: usize = 0;
            while i < n
                invariant
                    i <= n == nodes_circle@.len(),
                    filled@ == nodes_circle@.take(i as int).map_values(|p: DualNodePtr| (p, p)),
                decreases n - i,
            {
                filled.push((nodes_circle[i], nodes_circle[i]));
                i = i + 1;
                proof {
                    assert(nodes_circle@.take(i as int) == nodes_circle@.take(i - 1).push(nodes_circle@[i - 1]));
                }
            }
            proof {
                assert(nodes_circle@.take(n as int) == nodes_circle@);
            }
            filled
        } else {
            touching_children
        };
        let defect_size = self.circle_defect_size_exec(&nodes_circle);
        // the nodes stay, then the dual module prepares them to shrink
        let mut i: usize = 0;
        while i < n
            invariant
                self.wf(),
                dual_module.wf(),
                dual_module.synced(self),
                start.wf(),
                i <= n == nodes_circle@.len(),
                self.nodes_length == start.nodes_length,
                self.nodes@.len() == start.nodes@.len(),
                self.dual_variable_global_progress == start.dual_variable_global_progress,
                forall|q: int|
                    0 <= q < nodes_circle@.len() ==> start.is_live(#[trigger] nodes_circle@[q].index as int)
                        && start.node(nodes_circle@[q].index as int).parent_blossom is None,
                forall|j: int|
                    0 <= j < start.nodes_length ==> {
                        &&& (#[trigger] self.nodes@[j]) is Some == start.nodes@[j] is Some
                        &&& self.nodes@[j] is Some ==> {
                            &&& self.node(j).index == start.node(j).index
                            &&& self.node(j).class == start.node(j).class
                            &&& self.node(j).parent_blossom == start.node(j).parent_blossom
                            &&& self.node(j).defect_size == start.node(j).defect_size
                            &&& self.dual_variable_of(j) == start.dual_variable_of(j)
                        }
                        &&& !in_circle(nodes_circle@, j) ==> self.nodes@[j] == start.nodes@[j]
                    },
                forall|q: int|
                    0 <= q < i ==> self.node(#[trigger] nodes_circle@[q].index as int).grow_state
                        == DualNodeGrowState::Stay,
            decreases n - i,
        {
            let ptr = nodes_circle[i];
            proof {
                assert(start.is_live(nodes_circle@[i as int].index as int));
                assert(self.nodes@[ptr.index as int] is Some);
            }
            let ghost s0 = *self;
            self.set_grow_state(&ptr, DualNodeGrowState::Stay, dual_module);
            proof {
                assert forall|j: int| 0 <= j < start.nodes_length implies {
                    &&& (#[trigger] self.nodes@[j]) is Some == start.nodes@[j] is Some
                    &&& self.nodes@[j] is Some ==> {
                        &&& self.node(j).index == start.node(j).index
                        &&& self.node(j).class == start.node(j).class
                        &&& self.node(j).parent_blossom == start.node(j).parent_blossom
                        &&& self.node(j).defect_size == start.node(j).defect_size
                        &&& self.dual_variable_of(j) == start.dual_variable_of(j)
                    }
                    &&& !in_circle(nodes_circle@, j) ==> self.nodes@[j] == start.nodes@[j]
                } by {
                    assert(s0.nodes@[j] is Some == start.nodes@[j] is Some);
                    if j == ptr.index as int {
                        assert(in_circle(nodes_circle@, j)) by {
                            assert(nodes_circle@[i as int].index == j);
                        }
                        assert(self.is_live(j));
                    } else if self.nodes@[j] is Some {
                        assert(self.is_live(j));
                    }
                }
                assert forall|q: int| 0 <= q < i + 1 implies self.node(
                    #[trigger] nodes_circle@[q].index as int,
                ).grow_state == DualNodeGrowState::Stay by {
                    if nodes_circle@[q].index != ptr.index {
                        assert(s0.node(nodes_circle@[q].index as int).grow_state == DualNodeGrowState::Stay);
                    }
                }
            }
            i = i + 1;
        }
        proof {
            assert forall|q: int| 0 <= q < nodes_circle@.len() implies self.is_live(
                #[trigger] nodes_circle@[q].index as int,
            ) by {
                assert(start.is_live(nodes_circle@[q].index as int));
                assert(self.nodes@[nodes_circle@[q].index as int] is Some);
            }
        }
        let ghost stayed = *self;
        let ghost serial_stayed = *dual_module;
        dual_module.prepare_nodes_shrink(self, &nodes_circle);
        proof {
            assert forall|k: int| #[trigger] dual_module.is_moving(self, k) implies dual_module.active_list@.contains(
                k as usize,
            ) by {
                assert(serial_stayed.is_moving(self, k));
            }
            assert forall|k: int| #[trigger] self.is_live(k) implies dual_module.dual_of(k)
                == self.dual_variable_of(k) by {
                assert(dual_module.nodes@[k] is Some);
            }
        }
        // the blossom itself
        proof {
            self.lemma_speed_bound();
        }
        let ghost serial_before = *dual_module;
        let ghost pre = *self;
        let node_index = self.nodes_length;
        let blossom = DualNode {
            index: node_index,
            class: DualNodeClass::Blossom { nodes_circle: copy_ptrs(&nodes_circle), touching_children: touching },
            grow_state: DualNodeGrowState::Grow,
            parent_blossom: None,
            dual_variable_cache: (0, self.dual_variable_global_progress),
            defect_size,
        };
        let ghost blossom_slot = Some(blossom);
        self.push_node(blossom);
        self.sum_grow_speed = self.sum_grow_speed + 1;
        let blossom_ptr = DualNodePtr { index: node_index };
        proof {
            let nn = pre.nodes_length as int;
            let p = self.dual_variable_global_progress as int;
            Self::lemma_sums_push(pre.nodes@, self.nodes@, nn, p);
            assert(self.node(nn).spec_dual_variable(p) == 0) by {
                assert(1 * (p - p) == 0);
            }
            assert(defect_size >= 1) by {
                assert(start.is_live(nodes_circle@[0].index as int));
                assert(start.node_wf(nodes_circle@[0].index as int));
                Self::lemma_defect_size_monotone(start, nodes_circle@, 1, nodes_circle@.len() as int);
                assert(circle_defect_size(&start, nodes_circle@, 0) == 0);
                assert(circle_defect_size(&start, nodes_circle@, 1) >= 1);
            }
            assert forall|j: int| #[trigger] self.is_live(j) implies self.node_wf(j) by {
                if j < nn {
                    assert(pre.is_live(j));
                    assert(pre.node_wf(j));
                    if let DualNodeClass::Blossom { nodes_circle, .. } = self.node(j).class {
                        assert forall|k: int| 0 <= k < nodes_circle@.len() implies self.is_live(
                            (#[trigger] nodes_circle@[k]).index as int,
                        ) by {
                            assert(pre.is_live(nodes_circle@[k].index as int));
                        }
                    }
                } else {
                    assert forall|k: int| 0 <= k < nodes_circle@.len() implies {
                        &&& (#[trigger] nodes_circle@[k]).index < j
                        &&& self.is_live(nodes_circle@[k].index as int)
                    } by {
                        assert(pre.is_live(nodes_circle@[k].index as int));
                    }
                }
            }
            assert(self.wf());
        }
        // then update the parents
        let mut i: usize = 0;
        while i < n
            invariant
                self.wf(),
                i <= n == nodes_circle@.len(),
                self.nodes_length == pre.nodes_length + 1,
                node_index == pre.nodes_length,
                blossom_ptr.index == node_index,
                self.dual_variable_global_progress == pre.dual_variable_global_progress,
                self.sum_grow_speed == pre.sum_grow_speed + 1,
                self.nodes@[node_index as int] == blossom_slot,
                forall|q: int|
                    0 <= q < nodes_circle@.len() ==> pre.is_live(#[trigger] nodes_circle@[q].index as int)
                        && pre.node(nodes_circle@[q].index as int).grow_state == DualNodeGrowState::Stay,
                forall|j: int|
                    0 <= j < pre.nodes_length ==> {
                        &&& (#[trigger] self.nodes@[j]) is Some == pre.nodes@[j] is Some
                        &&& self.nodes@[j] is Some ==> self.node(j) == (DualNode {
                            parent_blossom: self.node(j).parent_blossom,
                            ..pre.node(j)
                        })
                        &&& !in_circle(nodes_circle@, j) ==> self.nodes@[j] == pre.nodes@[j]
                    },
                forall|q: int|
                    0 <= q < i ==> self.node(#[trigger] nodes_circle@[q].index as int).parent_blossom
                        == Some(blossom_ptr),
            decreases n - i,
        {
            let c = nodes_circle[i].index;
            proof {
                assert(pre.is_live(nodes_circle@[i as int].index as int));
                assert(self.is_live(c as int));
                assert(c < blossom_ptr.index);
                assert(self.node(c as int).grow_state == DualNodeGrowState::Stay);
            }
            let ghost s0 = *self;
            self.set_parent_blossom(c, blossom_ptr);
            proof {
                assert forall|j: int| 0 <= j < pre.nodes_length implies {
                    &&& (#[trigger] self.nodes@[j]) is Some == pre.nodes@[j] is Some
                    &&& self.nodes@[j] is Some ==> self.node(j) == (DualNode {
                        parent_blossom: self.node(j).parent_blossom,
                        ..pre.node(j)
                    })
                    &&& !in_circle(nodes_circle@, j) ==> self.nodes@[j] == pre.nodes@[j]
                } by {
                    assert(s0.nodes@[j] is Some == pre.nodes@[j] is Some);
                    if j == c as int {
                        assert(in_circle(nodes_circle@, j)) by {
                            assert(nodes_circle@[i as int].index == j);
                        }
                    }
                }
                assert forall|q: int| 0 <= q < i + 1 implies self.node(
                    #[trigger] nodes_circle@[q].index as int,
                ).parent_blossom == Some(blossom_ptr) by {
                    if nodes_circle@[q].index != c {
                        assert(s0.node(nodes_circle@[q].index as int).parent_blossom == Some(blossom_ptr));
                    }
                }
            }
            i = i + 1;
        }
        proof {
            assert forall|j: int| 0 <= j < serial_before.nodes_length implies (serial_before.nodes@[j] is Some
                <==> #[trigger] self.is_live(j)) by {
                assert(serial_before.nodes@[j] is Some <==> pre.is_live(j));
            }
        }
        dual_module.add_dual_node(self, &blossom_ptr);
        proof {
            let nn = pre.nodes_length as int;
            assert forall|k: int| #[trigger] self.is_live(k) implies dual_module.dual_of(k)
                == self.dual_variable_of(k) by {
                if k < nn {
                    assert(pre.is_live(k));
                    assert(serial_before.dual_of(k) == pre.dual_variable_of(k));
                    assert(dual_module.nodes@[k] is Some);
                } else {
                    assert(self.dual_variable_of(k) == 0) by {
                        assert(1 * (self.dual_variable_global_progress - self.dual_variable_global_progress) == 0);
                    }
                }
            }
            assert forall|k: int| #[trigger] dual_module.is_moving(self, k) implies dual_module.active_list@.contains(
                k as usize,
            ) by {
                if k < nn {
                    assert(serial_before.is_moving(&pre, k));
                    let w = choose|w: int|
                        0 <= w < serial_before.active_list@.len() && serial_before.active_list@[w] == k as usize;
                    assert(dual_module.active_list@[w] == k as usize);
                } else {
                    assert(dual_module.active_list@.last() == blossom_ptr.index);
                }
            }
            assert forall|j: int|
                0 <= j < start.nodes_length && in_circle(nodes_circle@, j) implies {
                &&& self.is_live(j)
                &&& #[trigger] self.node(j).grow_state == DualNodeGrowState::Stay
                &&& self.node(j).parent_blossom == Some(blossom_ptr)
                &&& self.dual_variable_of(j) == start.dual_variable_of(j)
                &&& self.node(j).class == start.node(j).class
            } by {
                let c = choose|c: int| 0 <= c < nodes_circle@.len() && #[trigger] nodes_circle@[c].index == j;
                assert(start.is_live(nodes_circle@[c].index as int));
                assert(stayed.node(nodes_circle@[c].index as int).grow_state == DualNodeGrowState::Stay);
                assert(self.node(nodes_circle@[c].index as int).parent_blossom == Some(blossom_ptr));
                assert(stayed.nodes@[j] is Some);
            }
            assert forall|j: int|
                0 <= j < start.nodes_length && !in_circle(nodes_circle@, j) implies #[trigger] self.nodes@[j]
                == start.nodes@[j] by {
                assert(stayed.nodes@[j] == start.nodes@[j]);
            }
        }
        blossom_ptr
    }

    /// the saturating sum never decreases
    proof fn lemma_defect_size_monotone(interface: DualModuleInterface, circle: Seq<DualNodePtr>, a: int, b: int)
        requires
            0 <= a <= b,
        ensures
            circle_defect_size(&interface, circle, a) <= circle_defect_size(&interface, circle, b),
            circle_defect_size(&interface, circle, b) <= usize::MAX,
        decreases b,
    {
        if b > a {
            Self::lemma_defect_size_monotone(interface, circle, a, b - 1);
        } else if b > 0 {
            Self::lemma_defect_size_monotone(interface, circle, b - 1, b - 1);
        }
    }
}

impl DualModuleInterface {
    /// the circle of the blossom in slot `i`
    pub open spec fn circle_of(&self, i: int) -> Seq<DualNodePtr> {
        self.node(i).class->nodes_circle@
    }

    /// no live blossom other than itself lists slot `i` in its circle
    pub open spec fn unreferenced(&self, i: int) -> bool {
        forall|j: int|
            #[trigger] self.is_live(j) && j != i ==> !(self.node(j).class matches DualNodeClass::Blossom {
                nodes_circle,
                ..
            } && in_circle(nodes_circle@, i))
    }

    /// detach the live node in slot `j` from its parent blossom
    fn clear_parent_blossom(&mut self, j: usize)
        requires
            old(self).wf(),
            old(self).is_live(j as int),
        ensures
            final(self).wf(),
            final(self).nodes@ == old(self).nodes@.update(
                j as int,
                Some(DualNode { parent_blossom: None, ..old(self).node(j as int) }),
            ),
            final(self).nodes_length == old(self).nodes_length,
            final(self).sum_grow_speed == old(self).sum_grow_speed,
            final(self).sum_dual_variables == old(self).sum_dual_variables,
            final(self).dual_variable_global_progress == old(self).dual_variable_global_progress,
            final(self).is_fusion == old(self).is_fusion,
    {
        let ghost pre = *self;
        match &mut self.nodes[j] {
            Some(node) => {
                node.parent_blossom = None;
            },
            None => {},
        }
        proof {
            let n = self.nodes_length as int;
            let p = self.dual_variable_global_progress as int;
            assert(self.nodes@ == pre.nodes@.update(j as int, self.nodes@[j as int]));
            lemma_sums_update(pre.nodes@, n, j as int, self.nodes@[j as int], p);
            assert forall|i: int| #[trigger] self.is_live(i) implies self.node_wf(i) by {
                assert(pre.is_live(i));
                assert(pre.node_wf(i));
                if let DualNodeClass::Blossom { nodes_circle, .. } = self.node(i).class {
                    assert forall|k: int| 0 <= k < nodes_circle@.len() implies self.is_live(
                        (#[trigger] nodes_circle@[k]).index as int,
                    ) by {
                        assert(pre.is_live(nodes_circle@[k].index as int));
                    }
                }
            }
        }
    }

    /// take the live node in slot `i`, whose dual variable is zero and which no other blossom
    /// lists, out of the interface
    fn drop_node(&mut self, i: usize)
        requires
            old(self).wf(),
            old(self).is_live(i as int),
            old(self).dual_variable_of(i as int) == 0,
            old(self).unreferenced(i as int),
        ensures
            final(self).wf(),
            final(self).nodes@ == old(self).nodes@.update(i as int, None),
            final(self).nodes_length == old(self).nodes_length,
            final(self).sum_grow_speed == old(self).sum_grow_speed - old(self).node(i as int).grow_state.speed(),
            final(self).sum_dual_variables == old(self).sum_dual_variables,
            final(self).dual_variable_global_progress == old(self).dual_variable_global_progress,
            final(self).is_fusion == old(self).is_fusion,
    {
        proof {
            self.lemma_speed_bound();
        }
        let ghost pre = *self;
        let speed: Weight = match &self.nodes[i] {
            Some(node) => match node.grow_state {
                DualNodeGrowState::Grow => 1,
                DualNodeGrowState::Stay => 0,
                DualNodeGrowState::Shrink => -1,
            },
            None => 0,
        };
        self.sum_grow_speed = self.sum_grow_speed - speed;
        self.remove_node(i);
        proof {
            let n = self.nodes_length as int;
            let p = self.dual_variable_global_progress as int;
            lemma_sums_update(pre.nodes@, n, i as int, None, p);
            assert forall|j: int| #[trigger] self.is_live(j) implies self.node_wf(j) by {
                assert(pre.is_live(j));
                assert(pre.node_wf(j));
                if let DualNodeClass::Blossom { nodes_circle, .. } = self.node(j).class {
                    assert forall|k: int| 0 <= k < nodes_circle@.len() implies self.is_live(
                        (#[trigger] nodes_circle@[k]).index as int,
                    ) by {
                        assert(pre.is_live(nodes_circle@[k].index as int));
                        if nodes_circle@[k].index == i {
                            assert(in_circle(nodes_circle@, i as int));
                        }
                    }
                }
            }
        }
    }

    /// expand a top-level blossom whose dual variable is zero: the dual module hands its boundary
    /// back to the nodes of its circle, which leave the blossom and all grow
    pub fn expand_blossom(&mut self, blossom_node_ptr: DualNodePtr, dual_module: &mut DualModuleSerial)
        requires
            old(self).wf(),
            old(dual_module).wf(),
            old(dual_module).synced(old(self)),
            old(self).is_live(blossom_node_ptr.index as int),
            old(self).node(blossom_node_ptr.index as int).class is Blossom,
            old(self).dual_variable_of(blossom_node_ptr.index as int) == 0,
            old(self).unreferenced(blossom_node_ptr.index as int),
        ensures
            final(self).wf(),
            final(dual_module).wf(),
            final(dual_module).synced(final(self)),
            final(self).nodes_length == old(self).nodes_length,
            final(self).nodes@[blossom_node_ptr.index as int] is None,
            final(self).dual_variable_global_progress == old(self).dual_variable_global_progress,
            forall|j: int|
                0 <= j < old(self).nodes_length && j != blossom_node_ptr.index ==> {
                    &&& (#[trigger] final(self).nodes@[j]) is Some == old(self).nodes@[j] is Some
                    &&& final(self).nodes@[j] is Some ==> final(self).dual_variable_of(j) == old(
                        self,
                    ).dual_variable_of(j)
                },
            forall|q: int|
                0 <= q < old(self).circle_of(blossom_node_ptr.index as int).len() ==> {
                    &&& final(self).is_live(
                        (#[trigger] old(self).circle_of(blossom_node_ptr.index as int)[q]).index as int,
                    )
                    &&& final(self).node(old(self).circle_of(blossom_node_ptr.index as int)[q].index as int).grow_state
                        == DualNodeGrowState::Grow
                    &&& final(self).node(
                        old(self).circle_of(blossom_node_ptr.index as int)[q].index as int,
                    ).parent_blossom is None
                },
            forall|j: int|
                0 <= j < old(self).nodes@.len() && j != blossom_node_ptr.index && !in_circle(
                    old(self).circle_of(blossom_node_ptr.index as int),
                    j,
                ) ==> #[trigger] final(self).nodes@[j] == old(self).nodes@[j],
            final(self).nodes@.len() == old(self).nodes@.len(),
    {
        let ghost start = *self;
        let ghost serial_start = *dual_module;
        let b = blossom_node_ptr.index;
        proof {
            assert(self.node_wf(b as int));
        }
        dual_module.remove_blossom(self, blossom_node_ptr);
        let ghost serial_removed = *dual_module;
        let circle = match &self.nodes[b] {
            Some(node) => match &node.class {
                DualNodeClass::Blossom { nodes_circle, .. } => copy_ptrs(nodes_circle),
                DualNodeClass::DefectVertex { .. } => Vec::new(),
            },
            None => Vec::new(),
        };
        self.drop_node(b);
        proof {
            assert forall|k: int| 0 <= k < dual_module.nodes_length implies (dual_module.nodes@[k] is Some
                <==> #[trigger] self.is_live(k)) by {
                if k != b as int {
                    assert(dual_module.nodes@[k] is Some == serial_removed.nodes@[k] is Some);
                    assert(start.is_live(k) == self.is_live(k));
                }
            }
            assert forall|k: int| #[trigger] self.is_live(k) implies dual_module.dual_of(k)
                == self.dual_variable_of(k) by {
                assert(start.is_live(k));
            }
            assert forall|k: int| #[trigger] dual_module.is_moving(self, k) implies dual_module.active_list@.contains(
                k as usize,
            ) by {
                assert(k != b as int);
                assert(serial_start.is_moving(&start, k));
            }
            assert(circle@ == start.circle_of(b as int));
            assert forall|q: int| 0 <= q < circle@.len() implies self.is_live(#[trigger] circle@[q].index as int)
                && start.is_live(circle@[q].index as int) by {
                assert(start.is_live(circle@[q].index as int));
                assert(circle@[q].index < b);
            }
        }
        let ghost dropped = *self;
        let n = circle.len();
        let mut i: usize = 0;
        while i < n
            invariant
                self.wf(),
                dual_module.wf(),
                dual_module.synced(self),
                i <= n == circle@.len(),
                circle@ == start.circle_of(b as int),
                forall|q: int| 0 <= q < n ==> (#[trigger] circle@[q]).index < b,
                b < self.nodes@.len(),
                self.nodes@[b as int] is None,
                self.nodes_length == start.nodes_length,
                self.dual_variable_global_progress == start.dual_variable_global_progress,
                forall|q: int| 0 <= q < n ==> dropped.is_live(#[trigger] circle@[q].index as int),
                forall|q: int| 0 <= q < n ==> start.is_live(#[trigger] circle@[q].index as int),
                forall|j: int|
                    0 <= j < start.nodes_length && j != b ==> {
                        &&& (#[trigger] self.nodes@[j]) is Some == start.nodes@[j] is Some
                        &&& self.nodes@[j] is Some ==> self.dual_variable_of(j) == start.dual_variable_of(j)
                    },
                forall|q: int|
                    0 <= q < i ==> self.node(#[trigger] circle@[q].index as int).grow_state
                        == DualNodeGrowState::Grow && self.node(circle@[q].index as int).parent_blossom is None,
                self.nodes@.len() == start.nodes@.len(),
                forall|j: int|
                    0 <= j < start.nodes@.len() && j != b && !in_circle(circle@, j) ==> #[trigger] self.nodes@[j]
                        == start.nodes@[j],
            decreases n - i,
        {
            let c = circle[i].index;
            proof {
                assert(dropped.is_live(circle@[i as int].index as int));
                assert(c != b);
                assert(self.is_live(c as int));
            }
            let ghost s0 = *self;
            let ghost serial0 = *dual_module;
            self.clear_parent_blossom(c);
            proof {
                assert forall|k: int| 0 <= k < dual_module.nodes_length implies (dual_module.nodes@[k] is Some
                    <==> #[trigger] self.is_live(k)) by {
                    assert(s0.is_live(k) == self.is_live(k));
                }
                assert forall|k: int| #[trigger] self.is_live(k) implies dual_module.dual_of(k)
                    == self.dual_variable_of(k) by {
                    assert(s0.is_live(k));
                }
                assert forall|k: int| #[trigger] dual_module.is_moving(self, k) implies dual_module.active_list@.contains(
                    k as usize,
                ) by {
                    assert(dual_module.is_moving(&s0, k));
                }
            }
            let ghost s1 = *self;
            self.set_grow_state(&DualNodePtr { index: c }, DualNodeGrowState::Grow, dual_module);
            proof {
                assert forall|j: int| 0 <= j < start.nodes_length && j != b implies {
                    &&& (#[trigger] self.nodes@[j]) is Some == start.nodes@[j] is Some
                    &&& self.nodes@[j] is Some ==> self.dual_variable_of(j) == start.dual_variable_of(j)
                } by {
                    assert(s0.nodes@[j] is Some == start.nodes@[j] is Some);
                    if self.nodes@[j] is Some {
                        assert(self.is_live(j));
                        assert(s1.is_live(j));
                        assert(s0.is_live(j));
                    }
                }
                assert forall|q: int| 0 <= q < i + 1 implies self.node(#[trigger] circle@[q].index as int).grow_state
                    == DualNodeGrowState::Grow && self.node(circle@[q].index as int).parent_blossom is None by {
                    if circle@[q].index != c {
                        assert(s0.node(circle@[q].index as int).grow_state == DualNodeGrowState::Grow);
                    }
                }
            }
            i = i + 1;
        }
        proof {
            assert forall|q: int| 0 <= q < start.circle_of(b as int).len() implies {
                &&& self.is_live((#[trigger] start.circle_of(b as int)[q]).index as int)
                &&& self.node(start.circle_of(b as int)[q].index as int).grow_state == DualNodeGrowState::Grow
                &&& self.node(start.circle_of(b as int)[q].index as int).parent_blossom is None
            } by {
                assert(self.node(circle@[q].index as int).grow_state == DualNodeGrowState::Grow);
                assert(dropped.is_live(circle@[q].index as int));
                assert(self.nodes@[circle@[q].index as int] is Some);
            }
        }
    }
}

impl DualModuleInterface {
    /// the outermost blossom that holds the live node in slot `i`, following parent pointers
    /// (a parent that is not live ends the walk at it)
    pub open spec fn ancestor_of(&self, i: int) -> int
        decreases self.nodes_length - i,
    {
        if self.is_live(i) {
            match self.node(i).parent_blossom {
                Some(p) => if i < p.index < self.nodes_length {
                    self.ancestor_of(p.index as int)
                } else {
                    p.index as int
                },
                None => i,
            }
        } else {
            i
        }
    }

    /// the child of the outermost blossom on the way up from slot `i`, which must have a parent
    pub open spec fn secondary_ancestor_of(&self, i: int) -> int
        decreases self.nodes_length - i,
    {
        match self.node(i).parent_blossom {
            Some(p) => if i < p.index < self.nodes_length && self.is_live(p.index as int)
                && self.node(p.index as int).parent_blossom is Some {
                self.secondary_ancestor_of(p.index as int)
            } else {
                i
            },
            None => i,
        }
    }

    /// the defect vertices inside the node in slot `i`, in the order of the circles
    pub open spec fn vertices_below(&self, i: int) -> Seq<VertexIndex>
        decreases i, 1int, 0int,
    {
        if self.is_live(i) {
            match self.node(i).class {
                DualNodeClass::DefectVertex { defect_index } => seq![defect_index],
                DualNodeClass::Blossom { nodes_circle, .. } => self.circle_vertices(
                    i,
                    nodes_circle@.len() as int,
                ),
            }
        } else {
            Seq::empty()
        }
    }

    /// the defect vertices inside the first `k` nodes of the circle of the blossom in slot `i`
    pub open spec fn circle_vertices(&self, i: int, k: int) -> Seq<VertexIndex>
        decreases i, 0int, k,
    {
        if k <= 0 || !self.is_live(i) || !(self.node(i).class is Blossom) || k > self.circle_of(i).len() {
            Seq::empty()
        } else {
            let c = self.circle_of(i)[k - 1].index as int;
            self.circle_vertices(i, k - 1) + if 0 <= c < i {
                self.vertices_below(c)
            } else {
                Seq::empty()
            }
        }
    }
}

impl DualModuleInterface {
    /// the defect vertices below the first node of a circle come first among those of the circle
    proof fn lemma_circle_vertices_start(&self, i: int, k: int)
        requires
            self.wf(),
            self.is_live(i),
            self.node(i).class is Blossom,
            1 <= k <= self.circle_of(i).len(),
        ensures
            ({
                let first = self.vertices_below(self.circle_of(i)[0].index as int);
                &&& first.len() <= self.circle_vertices(i, k).len()
                &&& forall|j: int| 0 <= j < first.len() ==> #[trigger] self.circle_vertices(i, k)[j] == first[j]
            }),
        decreases k,
    {
        assert(self.node_wf(i));
        let c0 = self.circle_of(i)[0].index as int;
        if k == 1 {
            assert(0 <= c0 < i);
            assert(self.circle_vertices(i, 0) =~= Seq::empty());
            assert(self.circle_vertices(i, 1) =~= self.vertices_below(c0));
        } else {
            self.lemma_circle_vertices_start(i, k - 1);
            let c = self.circle_of(i)[k - 1].index as int;
            let rest = if 0 <= c < i {
                self.vertices_below(c)
            } else {
                Seq::empty()
            };
            assert(self.circle_vertices(i, k) == self.circle_vertices(i, k - 1) + rest);
        }
    }

    /// the representative vertex of a live node is the first of its defect vertices
    pub proof fn lemma_representative_first(&self, i: int)
        requires
            self.wf(),
            self.is_live(i),
        ensures
            self.vertices_below(i).len() > 0,
            self.vertices_below(i)[0] == self.spec_representative_vertex(i),
        decreases i,
    {
        assert(self.node_wf(i));
        match self.node(i).class {
            DualNodeClass::DefectVertex { defect_index } => {},
            DualNodeClass::Blossom { nodes_circle, .. } => {
                let c0 = nodes_circle@[0].index as int;
                assert(self.circle_of(i) == nodes_circle@);
                assert(0 <= c0 < i && self.is_live(c0));
                self.lemma_representative_first(c0);
                self.lemma_circle_vertices_start(i, nodes_circle@.len() as int);
                assert(self.vertices_below(i) == self.circle_vertices(i, nodes_circle@.len() as int));
            },
        }
    }
}

impl DualNodePtr {
    /// handles never go out of date here: an interface keeps every node it holds at its own slot
    pub fn update(&self) -> (r: &Self)
        ensures
            *r == *self,
    {
        self
    }

    /// the index of the node in its interface
    pub fn updated_index(&self, interface: &DualModuleInterface) -> (r: NodeIndex)
        requires
            interface.wf(),
            interface.is_live(self.index as int),
        ensures
            r == interface.node(self.index as int).index,
            r == self.index,
    {
        assert(interface.node_wf(self.index as int));
        match &interface.nodes[self.index] {
            Some(node) => node.index,
            None => self.index,
        }
    }

    /// get parent blossom recursively
    pub fn get_ancestor_blossom(&self, interface: &DualModuleInterface) -> (r: DualNodePtr)
        requires
            interface.wf(),
        ensures
            r.index == interface.ancestor_of(self.index as int),
        decreases interface.nodes_length - self.index,
    {
        if self.index >= interface.nodes_length {
            return *self;
        }
        match &interface.nodes[self.index] {
            Some(node) => match node.parent_blossom {
                Some(parent) => {
                    if self.index < parent.index && parent.index < interface.nodes_length {
                        parent.get_ancestor_blossom(interface)
                    } else {
                        parent
                    }
                },
                None => *self,
            },
            None => *self,
        }
    }

    /// get the parent blossom before the most parent one, useful when expanding a blossom
    pub fn get_secondary_ancestor_blossom(&self, interface: &DualModuleInterface) -> (r: DualNodePtr)
        requires
            interface.wf(),
            interface.is_live(self.index as int),
            interface.node(self.index as int).parent_blossom is Some,
        ensures
            r.index == interface.secondary_ancestor_of(self.index as int),
        decreases interface.nodes_length - self.index,
    {
        assert(interface.node_wf(self.index as int));
        let parent = match &interface.nodes[self.index] {
            Some(node) => match node.parent_blossom {
                Some(parent) => parent,
                None => {
                    return *self;
                },
            },
            None => {
                return *self;
            },
        };
        if parent.index < interface.nodes_length {
            match &interface.nodes[parent.index] {
                Some(parent_node) => match parent_node.parent_blossom {
                    Some(_) => parent.get_secondary_ancestor_blossom(interface),
                    None => *self,
                },
                None => *self,
            }
        } else {
            *self
        }
    }

    fn __get_all_vertices(&self, interface: &DualModuleInterface, pending_vec: &mut Vec<VertexIndex>)
        requires
            interface.wf(),
        ensures
            final(pending_vec)@ == old(pending_vec)@ + interface.vertices_below(self.index as int),
        decreases self.index, 1int, 0int,
    {
        if self.index >= interface.nodes_length {
            return;
        }
        match &interface.nodes[self.index] {
            Some(node) => match &node.class {
                DualNodeClass::Blossom { nodes_circle, .. } => {
                    let n = nodes_circle.len();
                    let mut k: usize = 0;
                    while k < n
                        invariant
                            interface.wf(),
                            interface.is_live(self.index as int),
                            interface.node(self.index as int).class is Blossom,
                            nodes_circle@ == interface.circle_of(self.index as int),
                            n == nodes_circle@.len(),
                            k <= n,
                            pending_vec@ == old(pending_vec)@ + interface.circle_vertices(self.index as int, k as int),
                        decreases n - k,
                    {
                        let c = nodes_circle[k];
                        let ghost before = pending_vec@;
                        if c.index < self.index {
                            c.__get_all_vertices(interface, pending_vec);
                        }
                        k = k + 1;
                        proof {
                            assert(pending_vec@ == old(pending_vec)@ + interface.circle_vertices(self.index as int, k as int));
                        }
                    }
                    proof {
                        assert(pending_vec@ == old(pending_vec)@ + interface.vertices_below(self.index as int));
                    }
                },
                DualNodeClass::DefectVertex { defect_index } => {
                    pending_vec.push(*defect_index);
                },
            },
            None => {},
        }
    }

    /// find all vertices that belongs to the dual node, i.e. any vertices inside a blossom
    pub fn get_all_vertices(&self, interface: &DualModuleInterface) -> (r: Vec<VertexIndex>)
        requires
            interface.wf(),
        ensures
            r@ == interface.vertices_below(self.index as int),
    {
        let mut pending_vec: Vec<VertexIndex> = Vec::new();
        self.__get_all_vertices(interface, &mut pending_vec);
        proof {
            assert(pending_vec@ =~= Seq::<VertexIndex>::empty() + interface.vertices_below(self.index as int));
        }
        pending_vec
    }
}

/// the representative vertex by which a `VertexShrinkStop` event is paired with others
pub open spec fn representative_of(interface: &DualModuleInterface, m: MaxUpdateLength) -> VertexIndex {
    match m {
        MaxUpdateLength::VertexShrinkStop((n, _)) => interface.spec_representative_vertex(n.index as int),
        _ => 0,
    }
}

/// pending stops listed with their vertices
pub type PendingListing = Seq<(VertexIndex, MaxUpdateLength)>;

/// the pending stops after adding the listed events one after another
pub open spec fn fold_pending(
    list: Seq<MaxUpdateLength>,
    pending: Map<VertexIndex, MaxUpdateLength>,
    ks: Seq<(VertexIndex, MaxUpdateLength)>,
    interface: &DualModuleInterface,
) -> (Seq<MaxUpdateLength>, Map<VertexIndex, MaxUpdateLength>)
    decreases ks.len(),
{
    if ks.len() == 0 {
        (list, pending)
    } else {
        let (l, p) = fold_pending(list, pending, ks.drop_last(), interface);
        spec_add_pending_stop(l, p, ks.last().1, representative_of(interface, ks.last().1))
    }
}

/// `ks` lists the entries of `m`
pub open spec fn pending_listing(m: Map<VertexIndex, MaxUpdateLength>, ks: Seq<(VertexIndex, MaxUpdateLength)>) -> bool {
    ks.to_set() == m.kv_pairs()
}

/// the smaller of two growths, ordered by length and then by whether a node has an empty
/// boundary
pub open spec fn growth_min(a: (Weight, bool), b: (Weight, bool)) -> (Weight, bool) {
    if b.0 < a.0 || (b.0 == a.0 && a.1 && !b.1) {
        b
    } else {
        a
    }
}

impl MaxUpdateLength {
    /// every handle of the event refers to a live node
    pub open spec fn handles_live(self, interface: &DualModuleInterface) -> bool {
        self matches MaxUpdateLength::VertexShrinkStop((n, _)) ==> interface.is_live(n.index as int)
    }
}

impl GroupMaxUpdateLength {
    /// merge the conflicts or growth of `other` into this group: two growths keep the smaller,
    /// conflicts replace a growth, and conflicts are appended to conflicts, the pending stops of
    /// `other` being added by increasing vertex; an empty `other` changes nothing
    pub fn extend(&mut self, other: Self, interface: &DualModuleInterface)
        requires
            interface.wf(),
            forall|k: VertexIndex|
                #[trigger] other.pending().contains_key(k) ==> other.pending()[k].handles_live(interface),
        ensures
            (other.growth() matches Some((l, f)) && l == Weight::MAX && !f) ==> final(self).summary() == old(
                self,
            ).summary(),
            !(other.growth() matches Some((l, f)) && l == Weight::MAX && !f) ==> match (old(self).growth(), other.growth()) {
                (Some(a), Some(b)) => final(self).summary() == (
                    Some(growth_min(a, b)),
                    old(self).conflicts(),
                    old(self).pending(),
                ),
                (Some(_), None) => final(self).summary() == other.summary(),
                (None, Some(_)) => final(self).summary() == old(self).summary(),
                (None, None) => (exists|ks: PendingListing|
                    {
                        &&& pending_listing(other.pending(), ks)
                        &&& forall|i: int, j: int| 0 <= i < j < ks.len() ==> ks[i].0 < ks[j].0
                        &&& final(self).growth() is None
                        &&& (final(self).conflicts(), final(self).pending()) == fold_pending(
                            old(self).conflicts() + other.conflicts(),
                            old(self).pending(),
                            ks,
                            interface,
                        )
                    }),
            },
    {
        let ghost other_pending = other.pending();
        if other.is_empty() {
            return;
        }
        match self {
            GroupMaxUpdateLength::NonZeroGrow(current) => match other {
                GroupMaxUpdateLength::NonZeroGrow(length) => {
                    if length.0 < current.0 || (length.0 == current.0 && current.1 && !length.1) {
                        *current = length;
                    }
                },
                GroupMaxUpdateLength::Conflicts(conflicts) => {
                    *self = GroupMaxUpdateLength::Conflicts(conflicts);
                },
            },
            GroupMaxUpdateLength::Conflicts((list, pending_stops)) => {
                match other {
                    GroupMaxUpdateLength::Conflicts((other_list, other_pending_stops)) => {
                        assert(other_pending_stops@ == other_pending);
                        let mut other_list = other_list;
                        list.append(&mut other_list);
                        let ghost start_list = list@;
                        let ghost start_pending = pending_stops@;
                        let ghost mut seen: Seq<(VertexIndex, MaxUpdateLength)> = Seq::empty();
                        proof {
                            lemma_vertex_keys_ordered();
                        }
                        let iter = other_pending_stops.iter();
                        proof {
                            let remaining = vstd::std_specs::iter::IteratorSpec::remaining(&iter);
                            let keys = remaining.map_values(|kv: (&VertexIndex, &MaxUpdateLength)| *kv.0);
                            lemma_keys_increasing(keys);
                            assert forall|i: int, j: int| 0 <= i < j < remaining.len() implies *remaining[i].0
                                < *remaining[j].0 by {
                                assert(keys[i] == *remaining[i].0);
                                assert(keys[j] == *remaining[j].0);
                            }
                        }
                        for kv in it: iter
                            invariant
                                forall|i: int, j: int| 0 <= i < j < it.seq().len() ==> *it.seq()[i].0 < *it.seq()[j].0,
                                forall|i: int, j: int| 0 <= i < j < seen.len() ==> seen[i].0 < seen[j].0,
                                interface.wf(),
                                forall|k: VertexIndex|
                                    #[trigger] other_pending_stops@.contains_key(k)
                                        ==> other_pending_stops@[k].handles_live(interface),
                                it.seq().unref().to_set() == other_pending_stops@.kv_pairs(),
                                seen.len() == it.index(),
                                forall|i: int| 0 <= i < it.index() ==> seen[i] == (*it.seq()[i].0, *it.seq()[i].1),
                                (list@, pending_stops@) == fold_pending(start_list, start_pending, seen, interface),
                                it.index() == it.seq().len() ==> seen =~= it.seq().unref(),
                        {
                            let (k, m) = kv;
                            proof {
                                assert(it.seq().unref()[it.index() as int] == (*k, *m));
                                assert(it.seq().unref().to_set().contains((*k, *m)));
                                assert(other_pending_stops@.kv_pairs().contains((*k, *m)));
                                assert(other_pending_stops@.contains_key(*k));
                                let ghost before = seen;
                                seen = seen.push((*k, *m));
                                assert(seen.drop_last() =~= before);
                            }
                            Self::add_pending_stop(list, pending_stops, *m, interface);
                            assert(forall|i: int| 0 <= i < seen.len() ==> seen[i] == it.seq().unref()[i]);
                            assert(seen.len() == it.seq().len() ==> seen =~= it.seq().unref());
                        }
                        assert(pending_listing(other_pending, seen));

                    },
                    GroupMaxUpdateLength::NonZeroGrow(_) => {},
                }
            },
        }
    }
}

impl MaxUpdateLength {
    /// bring every handle of the event up to date; handles never go out of date here, so this
    /// leaves the event as it is
    pub fn update(&self) {
        match self {
            MaxUpdateLength::NonZeroGrow(_) => {},
            MaxUpdateLength::Conflicting((a, b), (c, d)) => {
                a.update();
                b.update();
                c.update();
                d.update();
            },
            MaxUpdateLength::TouchingVirtual((a, b), _) => {
                a.update();
                b.update();
            },
            MaxUpdateLength::BlossomNeedExpand(x) => {
                x.update();
            },
            MaxUpdateLength::VertexShrinkStop((a, option)) => {
                a.update();
                if let Some((b, c)) = option {
                    b.update();
                    c.update();
                }
            },
        }
    }
}

impl GroupMaxUpdateLength {
    /// bring every handle of the conflicts up to date
    pub fn update(&self) {
        if let GroupMaxUpdateLength::Conflicts((list, pending_stops)) = self {
            let mut i: usize = 0;
            while i < list.len()
                decreases list.len() - i,
            {
                list[i].update();
                i = i + 1;
            }
            for m in pending_stops.values() {
                m.update();
            }
        }
    }
}

impl SyncRequest {
    /// bring the handles of the propagated nodes up to date
    pub fn update(&self) {
        if let Some((node, ..)) = &self.propagated_dual_node {
            node.update();
        }
        if let Some((node, ..)) = &self.propagated_grandson_dual_node {
            node.update();
        }
    }
}

/// why the dual nodes of an interface are not consistent
#[derive(Debug, Clone, Copy, PartialEq, Eq, Structural)]
pub enum InterfaceSanityError {
    /// a blossom lists itself in its circle
    BlossomContainsItself { blossom: NodeIndex },
    /// a node in the circle of a blossom does not point back to it as its parent
    ChildParentMismatch { blossom: NodeIndex, child: NodeIndex },
    /// a node in the circle of a blossom does not stay
    ChildNotStay { child: NodeIndex },
    /// a defect node in a circle is touched by a node other than itself
    TouchingChildNotDefect { child: NodeIndex },
    /// a touching child is not inside the same outermost blossom as the circle node it stands for
    NotDescendant { touching: NodeIndex, child: NodeIndex },
    /// two defect nodes on the same vertex
    DuplicateDefect { defect_index: VertexIndex },
    /// the parent of a node is not in the interface
    ParentNotInInterface { parent: NodeIndex },
    /// the parent of a node is not a blossom
    ParentNotBlossom { parent: NodeIndex, child: NodeIndex },
    /// a node is not in the circle of its parent exactly once
    ParentChildCount { parent: NodeIndex, child: NodeIndex, count: usize },
}

/// the number of times slot `i` occurs in `circle`
pub open spec fn count_in(circle: Seq<DualNodePtr>, i: int) -> nat
    decreases circle.len(),
{
    if circle.len() == 0 {
        0
    } else {
        count_in(circle.drop_last(), i) + if circle.last().index == i {
            1nat
        } else {
            0nat
        }
    }
}

impl DualModuleInterface {
    /// member `q` of the circle of the blossom in slot `i` is linked as it should be: it is not the
    /// blossom itself, it points back to it, it stays, and its touching children are itself if a
    /// defect node and inside the same outermost blossom as it otherwise
    pub open spec fn circle_member_ok(&self, i: int, q: int) -> bool {
        let c = self.circle_of(i)[q].index as int;
        let (t1, t2) = self.node(i).class->touching_children@[q];
        &&& c != i
        &&& self.node(c).parent_blossom == Some(DualNodePtr { index: i as usize })
        &&& self.node(c).grow_state == DualNodeGrowState::Stay
        &&& if self.node(c).class is DefectVertex {
            t1 == self.circle_of(i)[q] && t2 == self.circle_of(i)[q]
        } else {
            self.ancestor_of(t1.index as int) == self.ancestor_of(c) && self.ancestor_of(t2.index as int)
                == self.ancestor_of(c)
        }
    }

    /// the live node in slot `i` is consistent with its circle and with its parent
    pub open spec fn node_consistent(&self, i: int) -> bool {
        &&& (self.node(i).class is Blossom ==> forall|q: int|
            0 <= q < self.circle_of(i).len() ==> #[trigger] self.circle_member_ok(i, q))
        &&& (self.node(i).parent_blossom matches Some(p) ==> {
            &&& self.is_live(p.index as int)
            &&& self.node(p.index as int).class is Blossom
            &&& count_in(self.circle_of(p.index as int), i) == 1
        })
    }

    /// the defect nodes among the first `n` slots sit on distinct vertices
    pub open spec fn defects_distinct(&self, n: int) -> bool {
        forall|i: int, j: int|
            #![trigger self.node(i).class, self.node(j).class]
            0 <= i < n && 0 <= j < n && i != j && self.is_live(i) && self.is_live(j) && self.node(
                i,
            ).class is DefectVertex && self.node(j).class is DefectVertex ==> self.node(i).class->defect_index
                != self.node(j).class->defect_index
    }

    /// the vertices of the defect nodes among the first `n` slots
    pub open spec fn defects_below(&self, n: int) -> Set<VertexIndex> {
        Set::new(
            |v: VertexIndex|
                exists|i: int|
                    0 <= i < n && #[trigger] self.is_live(i) && self.node(i).class is DefectVertex
                        && self.node(i).class->defect_index == v,
        )
    }

    /// every live node is consistent and no two defect nodes share a vertex
    pub open spec fn consistent(&self) -> bool {
        &&& forall|i: int| #[trigger] self.is_live(i) ==> self.node_consistent(i)
        &&& self.defects_distinct(self.nodes_length as int)
    }

    fn count_exec(circle: &Vec<DualNodePtr>, i: usize) -> (r: usize)
        ensures
            r == count_in(circle@, i as int),
    {
        let mut count: usize = 0;
        let mut k: usize = 0;
        while k < circle.len()
            invariant
                k <= circle@.len(),
                count == count_in(circle@.take(k as int), i as int),
                count <= k,
            decreases circle.len() - k,
        {
            proof {
                assert(circle@.take(k + 1).drop_last() == circle@.take(k as int));
            }
            if circle[k].index == i {
                count = count + 1;
            }
            k = k + 1;
        }
        proof {
            assert(circle@.take(circle@.len() as int) == circle@);
        }
        count
    }

    /// check member `q` of the circle of the blossom in slot `i`
    fn check_circle_member(&self, i: usize, q: usize) -> (r: Result<(), InterfaceSanityError>)
        requires
            self.wf(),
            self.is_live(i as int),
            self.node(i as int).class is Blossom,
            q < self.circle_of(i as int).len(),
        ensures
            r is Ok <==> self.circle_member_ok(i as int, q as int),
    {
        assert(self.node_wf(i as int));
        let (c, t1, t2) = match &self.nodes[i] {
            Some(node) => match &node.class {
                DualNodeClass::Blossom { nodes_circle, touching_children } => (
                    nodes_circle[q],
                    touching_children[q].0,
                    touching_children[q].1,
                ),
                DualNodeClass::DefectVertex { .. } => {
                    return Ok(());
                },
            },
            None => {
                return Ok(());
            },
        };
        if c.index == i {
            return Err(InterfaceSanityError::BlossomContainsItself { blossom: i });
        }
        assert(self.is_live(c.index as int));
        let (parent, grow_state, is_defect) = match &self.nodes[c.index] {
            Some(child) => (child.parent_blossom, child.grow_state, !child.class.is_blossom()),
            None => {
                return Ok(());
            },
        };
        if parent != Some(DualNodePtr { index: i }) {
            return Err(InterfaceSanityError::ChildParentMismatch { blossom: i, child: c.index });
        }
        if grow_state != DualNodeGrowState::Stay {
            return Err(InterfaceSanityError::ChildNotStay { child: c.index });
        }
        if is_defect {
            if t1 != c || t2 != c {
                return Err(InterfaceSanityError::TouchingChildNotDefect { child: c.index });
            }
        } else {
            let circle_ancestor = c.get_ancestor_blossom(self);
            if t1.get_ancestor_blossom(self) != circle_ancestor {
                return Err(InterfaceSanityError::NotDescendant { touching: t1.index, child: c.index });
            }
            if t2.get_ancestor_blossom(self) != circle_ancestor {
                return Err(InterfaceSanityError::NotDescendant { touching: t2.index, child: c.index });
            }
        }
        Ok(())
    }

    /// check the live node in slot `i` against its circle and its parent
    fn check_node(&self, i: usize) -> (r: Result<(), InterfaceSanityError>)
        requires
            self.wf(),
            self.is_live(i as int),
        ensures
            r is Ok <==> self.node_consistent(i as int),
    {
        assert(self.node_wf(i as int));
        let (n, parent) = match &self.nodes[i] {
            Some(node) => (
                match &node.class {
                    DualNodeClass::Blossom { nodes_circle, .. } => nodes_circle.len(),
                    DualNodeClass::DefectVertex { .. } => 0,
                },
                node.parent_blossom,
            ),
            None => (0, None),
        };
        let mut q: usize = 0;
        while q < n
            invariant
                self.wf(),
                self.is_live(i as int),
                self.node(i as int).class is Blossom ==> n == self.circle_of(i as int).len(),
                self.node(i as int).class is DefectVertex ==> n == 0,
                q <= n,
                forall|x: int| 0 <= x < q ==> #[trigger] self.circle_member_ok(i as int, x),
            decreases n - q,
        {
            match self.check_circle_member(i, q) {
                Ok(()) => {},
                Err(e) => {
                    return Err(e);
                },
            }
            q = q + 1;
        }
        match parent {
            Some(p) => {
                if p.index >= self.nodes_length {
                    return Err(InterfaceSanityError::ParentNotInInterface { parent: p.index });
                }
                match &self.nodes[p.index] {
                    Some(parent_node) => match &parent_node.class {
                        DualNodeClass::Blossom { nodes_circle, .. } => {
                            let count = Self::count_exec(nodes_circle, i);
                            if count != 1 {
                                return Err(
                                    InterfaceSanityError::ParentChildCount { parent: p.index, child: i, count },
                                );
                            }
                        },
                        DualNodeClass::DefectVertex { .. } => {
                            return Err(InterfaceSanityError::ParentNotBlossom { parent: p.index, child: i });
                        },
                    },
                    None => {
                        return Err(InterfaceSanityError::ParentNotInInterface { parent: p.index });
                    },
                }
            },
            None => {},
        }
        Ok(())
    }

    /// check that all the nodes are in a consistent state: blossoms and their children point to
    /// each other, children stay, touching children lie inside the circle nodes they stand for,
    /// and no two defect nodes share a vertex; gives every slot in order when consistent
    pub fn sanity_check(&self) -> (r: Result<Vec<Option<DualNodePtr>>, InterfaceSanityError>)
        requires
            self.wf(),
        ensures
            r is Ok <==> self.consistent(),
            r matches Ok(list) ==> list@.len() == self.nodes_length && forall|i: int|
                0 <= i < self.nodes_length ==> (#[trigger] list@[i] == if self.is_live(i) {
                    Some(DualNodePtr { index: i as usize })
                } else {
                    None
                }),
    {
        let mut flattened_nodes: Vec<Option<DualNodePtr>> = Vec::new();
        self.flatten_nodes(&mut flattened_nodes);
        proof {
            assert forall|j: int| 0 <= j < self.nodes_length implies (#[trigger] flattened_nodes@[j] == if self.is_live(j) {
                Some(DualNodePtr { index: j as usize })
            } else {
                None
            }) by {
                assert(flattened_nodes@[0 + j] == flattened_nodes@[j]);
            }
        }
        let mut visited_defects: BTreeSet<VertexIndex> = BTreeSet::new();
        let mut i: usize = 0;
        while i < self.nodes_length
            invariant
                self.wf(),
                i <= self.nodes_length,
                forall|j: int| 0 <= j < i && #[trigger] self.is_live(j) ==> self.node_consistent(j),
                self.defects_distinct(i as int),
                visited_defects@ == self.defects_below(i as int),
                flattened_nodes@.len() == self.nodes_length,
                forall|j: int|
                    0 <= j < self.nodes_length ==> (#[trigger] flattened_nodes@[j] == if self.is_live(j) {
                        Some(DualNodePtr { index: j as usize })
                    } else {
                        None
                    }),
            decreases self.nodes_length - i,
        {
            if self.nodes[i].is_some() {
                assert(self.is_live(i as int));
                match self.check_node(i) {
                    Ok(()) => {},
                    Err(e) => {
                        return Err(e);
                    },
                }
                let defect = match &self.nodes[i] {
                    Some(node) => match &node.class {
                        DualNodeClass::DefectVertex { defect_index } => Some(*defect_index),
                        DualNodeClass::Blossom { .. } => None,
                    },
                    None => None,
                };
                match defect {
                    Some(d) => {
                        if visited_defects.contains(&d) {
                            proof {
                                let j = choose|j: int|
                                    0 <= j < i && #[trigger] self.is_live(j) && self.node(j).class is DefectVertex
                                        && self.node(j).class->defect_index == d;
                                assert(!self.defects_distinct(self.nodes_length as int));
                            }
                            return Err(InterfaceSanityError::DuplicateDefect { defect_index: d });
                        }
                        visited_defects.insert(d);
                        proof {
                            assert(visited_defects@ =~= self.defects_below(i + 1));
                            assert forall|a: int, b: int|
                                0 <= a < i + 1 && 0 <= b < i + 1 && a != b && self.is_live(a) && self.is_live(b)
                                    && #[trigger] self.node(a).class is DefectVertex && #[trigger] self.node(
                                    b,
                                ).class is DefectVertex implies self.node(a).class->defect_index
                                != self.node(b).class->defect_index by {
                                if a == i as int {
                                    assert(!self.defects_below(i as int).contains(d));
                                    assert(!(self.is_live(b) && self.node(b).class is DefectVertex
                                        && self.node(b).class->defect_index == d && 0 <= b < i));
                                } else if b == i as int {
                                    assert(!(self.is_live(a) && self.node(a).class is DefectVertex
                                        && self.node(a).class->defect_index == d && 0 <= a < i));
                                }
                            }
                        }
                    },
                    None => {
                        proof {
                            assert(visited_defects@ =~= self.defects_below(i + 1));
                        }
                    },
                }
            } else {
                proof {
                    assert(visited_defects@ =~= self.defects_below(i + 1));
                }
            }
            i = i + 1;
        }
        Ok(flattened_nodes)
    }
}

/// a handle moved `bias` slots up
pub open spec fn shift_ptr(p: DualNodePtr, bias: int) -> DualNodePtr {
    DualNodePtr { index: (p.index + bias) as usize }
}

/// `new` is the node `old` moved `bias` slots up, every handle it holds moved along, with its
/// dual variable cached as `cache`
pub open spec fn shifted_from(new: DualNode, old: DualNode, bias: int, cache: (Weight, Weight)) -> bool {
    &&& new.index == old.index + bias
    &&& new.grow_state == old.grow_state
    &&& new.defect_size == old.defect_size
    &&& new.dual_variable_cache == cache
    &&& new.parent_blossom == match old.parent_blossom {
        Some(p) => Some(shift_ptr(p, bias)),
        None => None,
    }
    &&& match (new.class, old.class) {
        (DualNodeClass::DefectVertex { defect_index: a }, DualNodeClass::DefectVertex { defect_index: b }) => a
            == b,
        (
            DualNodeClass::Blossom { nodes_circle: c1, touching_children: t1 },
            DualNodeClass::Blossom { nodes_circle: c2, touching_children: t2 },
        ) => {
            &&& c1@.len() == c2@.len()
            &&& forall|k: int| 0 <= k < c1@.len() ==> #[trigger] c1@[k] == shift_ptr(c2@[k], bias)
            &&& t1@.len() == t2@.len()
            &&& forall|k: int|
                0 <= k < t1@.len() ==> #[trigger] t1@[k] == (shift_ptr(t2@[k].0, bias), shift_ptr(
                    t2@[k].1,
                    bias,
                ))
        },
        _ => false,
    }
}

/// the sum of the dual variables of slots `[start, start + n)`
pub open spec fn nodes_dual_sum_range(nodes: Seq<Option<DualNode>>, start: int, n: int, progress: int) -> int
    decreases n,
{
    if n <= 0 {
        0
    } else {
        nodes_dual_sum_range(nodes, start, n - 1, progress) + match nodes[start + n - 1] {
            Some(node) => node.spec_dual_variable(progress),
            None => 0,
        }
    }
}

/// the sum of the speeds of slots `[start, start + n)`
pub open spec fn nodes_speed_sum_range(nodes: Seq<Option<DualNode>>, start: int, n: int) -> int
    decreases n,
{
    if n <= 0 {
        0
    } else {
        nodes_speed_sum_range(nodes, start, n - 1) + match nodes[start + n - 1] {
            Some(node) => node.grow_state.speed(),
            None => 0,
        }
    }
}

/// the sums over the first `start + n` slots split at `start`
pub proof fn lemma_sums_split(nodes: Seq<Option<DualNode>>, start: int, n: int, progress: int)
    requires
        0 <= start,
        0 <= n,
    ensures
        nodes_dual_sum(nodes, start + n, progress) == nodes_dual_sum(nodes, start, progress)
            + nodes_dual_sum_range(nodes, start, n, progress),
        nodes_speed_sum(nodes, start + n) == nodes_speed_sum(nodes, start) + nodes_speed_sum_range(
            nodes,
            start,
            n,
        ),
    decreases n,
{
    if n > 0 {
        lemma_sums_split(nodes, start, n - 1, progress);
    }
}

impl DualNode {
    /// this node moved `bias` slots up, with every handle it holds moved along
    fn shifted(&self, bias: usize, cache: (Weight, Weight)) -> (r: DualNode)
        requires
            self.index + bias <= usize::MAX,
            self.parent_blossom matches Some(p) ==> p.index + bias <= usize::MAX,
            self.class matches DualNodeClass::Blossom { nodes_circle, touching_children } ==> {
                &&& forall|k: int| 0 <= k < nodes_circle@.len() ==> (#[trigger] nodes_circle@[k]).index + bias <= usize::MAX
                &&& forall|k: int|
                    0 <= k < touching_children@.len() ==> (#[trigger] touching_children@[k]).0.index + bias
                        <= usize::MAX && touching_children@[k].1.index + bias <= usize::MAX
            },
        ensures
            shifted_from(r, *self, bias as int, cache),
    {
        let class = match &self.class {
            DualNodeClass::DefectVertex { defect_index } => DualNodeClass::DefectVertex { defect_index: *defect_index },
            DualNodeClass::Blossom { nodes_circle, touching_children } => {
                let mut circle: Vec<DualNodePtr> = Vec::new();
                let mut k: usize = 0;
                while k < nodes_circle.len()
                    invariant
                        k <= nodes_circle@.len(),
                        circle@.len() == k,
                        forall|x: int| 0 <= x < nodes_circle@.len() ==> (#[trigger] nodes_circle@[x]).index + bias <= usize::MAX,
                        forall|x: int| 0 <= x < k ==> #[trigger] circle@[x] == shift_ptr(nodes_circle@[x], bias as int),
                    decreases nodes_circle.len() - k,
                {
                    circle.push(DualNodePtr { index: nodes_circle[k].index + bias });
                    k = k + 1;
                }
                let mut touching: Vec<(DualNodePtr, DualNodePtr)> = Vec::new();
                let mut k: usize = 0;
                while k < touching_children.len()
                    invariant
                        k <= touching_children@.len(),
                        touching@.len() == k,
                        forall|x: int|
                            0 <= x < touching_children@.len() ==> (#[trigger] touching_children@[x]).0.index + bias
                                <= usize::MAX && touching_children@[x].1.index + bias <= usize::MAX,
                        forall|x: int|
                            0 <= x < k ==> #[trigger] touching@[x] == (shift_ptr(touching_children@[x].0, bias as int), shift_ptr(
                                touching_children@[x].1,
                                bias as int,
                            )),
                    decreases touching_children.len() - k,
                {
                    let (a, c) = touching_children[k];
                    touching.push((DualNodePtr { index: a.index + bias }, DualNodePtr { index: c.index + bias }));
                    k = k + 1;
                }
                DualNodeClass::Blossom { nodes_circle: circle, touching_children: touching }
            },
        };
        let parent_blossom = match self.parent_blossom {
            Some(p) => Some(DualNodePtr { index: p.index + bias }),
            None => None,
        };
        DualNode {
            index: self.index + bias,
            class,
            grow_state: self.grow_state,
            parent_blossom,
            dual_variable_cache: cache,
            defect_size: self.defect_size,
        }
    }
}

impl DualModuleInterface {
    /// copy the nodes of `other` after the nodes of this interface, every handle moved along, each
    /// node keeping its dual variable
    fn absorb(&mut self, other: &mut DualModuleInterface)
        requires
            old(self).wf(),
            old(other).wf(),
            old(self).nodes_length + old(other).nodes_length <= NODE_NUM_BOUND,
        ensures
            final(self).wf(),
            final(self).nodes_length == old(self).nodes_length + old(other).nodes_length,
            final(self).dual_variable_global_progress == old(self).dual_variable_global_progress,
            forall|j: int| 0 <= j < old(self).nodes_length ==> #[trigger] final(self).nodes@[j] == old(self).nodes@[j],
            forall|j: int|
                0 <= j < old(other).nodes_length ==> (#[trigger] final(self).nodes@[old(self).nodes_length + j]) is Some
                    == old(other).nodes@[j] is Some,
            forall|j: int|
                #[trigger] old(other).is_live(j) ==> shifted_from(
                    final(self).node(old(self).nodes_length + j),
                    old(other).node(j),
                    old(self).nodes_length as int,
                    (old(other).dual_variable_of(j) as Weight, old(self).dual_variable_global_progress),
                ),
            forall|j: int|
                #[trigger] old(other).is_live(j) ==> final(self).dual_variable_of(old(self).nodes_length + j)
                    == old(other).dual_variable_of(j),
            final(self).sum_dual_variables == old(self).sum_dual_variables + old(other).sum_dual_variables,
            final(self).sum_grow_speed == old(self).sum_grow_speed + old(other).sum_grow_speed,
            final(other).nodes@ == old(other).nodes@,
            final(other).nodes_length == old(other).nodes_length,
            final(other).is_fusion,
            final(self).is_fusion,
    {
        let ghost start = *self;
        let ghost other_start = *other;
        other.is_fusion = true;
        self.is_fusion = true;
        proof {
            Self::lemma_wf_frame(&start, self);
            Self::lemma_wf_frame(&other_start, other);
        }
        let bias = self.nodes_length;
        let progress = self.dual_variable_global_progress;
        let n = other.nodes_length;
        proof {
            self.lemma_speed_bound();
            other.lemma_speed_bound();
            lemma_dual_sum_bound_wf(&start);
            lemma_dual_sum_bound_wf(other);
        }
        let mut i: usize = 0;
        while i < n
            invariant
                start.wf(),
                other.wf(),
                n == other.nodes_length,
                bias == start.nodes_length,
                progress == start.dual_variable_global_progress,
                bias + n <= NODE_NUM_BOUND,
                i <= n,
                self.nodes_length == bias + i,
                self.nodes_length <= self.nodes@.len(),
                self.is_fusion,
                self.dual_variable_global_progress == progress,
                self.sum_dual_variables == start.sum_dual_variables,
                self.sum_grow_speed == start.sum_grow_speed,
                forall|j: int| 0 <= j < bias ==> #[trigger] self.nodes@[j] == start.nodes@[j],
                forall|j: int| 0 <= j < i ==> (#[trigger] self.nodes@[bias + j]) is Some == other.nodes@[j] is Some,
                forall|j: int|
                    0 <= j < i && #[trigger] other.is_live(j) ==> shifted_from(
                        self.node(bias + j),
                        other.node(j),
                        bias as int,
                        (other.dual_variable_of(j) as Weight, progress),
                    ),
            decreases n - i,
        {
            let shifted = match &other.nodes[i] {
                Some(node) => {
                    proof {
                        assert(other.is_live(i as int));
                        assert(other.node_wf(i as int));
                    }
                    let dual_variable = node.get_dual_variable(other);
                    Some(node.shifted(bias, (dual_variable, progress)))
                },
                None => None,
            };
            let ghost pre = *self;
            if self.nodes_length < self.nodes.len() {
                self.nodes.set(self.nodes_length, shifted);
            } else {
                self.nodes.push(shifted);
            }
            self.nodes_length = self.nodes_length + 1;
            proof {
                assert forall|j: int| 0 <= j < bias implies #[trigger] self.nodes@[j] == start.nodes@[j] by {
                    assert(pre.nodes@[j] == start.nodes@[j]);
                }
                assert forall|j: int| 0 <= j < i + 1 implies (#[trigger] self.nodes@[bias + j]) is Some
                    == other.nodes@[j] is Some by {
                    if j < i {
                        assert(pre.nodes@[bias + j] == self.nodes@[bias + j]);
                    }
                }
                assert forall|j: int|
                    0 <= j < i + 1 && #[trigger] other.is_live(j) implies shifted_from(
                    self.node(bias + j),
                    other.node(j),
                    bias as int,
                    (other.dual_variable_of(j) as Weight, progress),
                ) by {
                    if j < i {
                        assert(pre.nodes@[bias + j] == self.nodes@[bias + j]);
                    }
                }
            }
            i = i + 1;
        }
        self.sum_dual_variables = self.sum_dual_variables + other.sum_dual_variables;
        self.sum_grow_speed = self.sum_grow_speed + other.sum_grow_speed;
        proof {
            let p = progress as int;
            let nn = self.nodes_length as int;
            // the dual variable of each copied node is the one it had
            assert forall|j: int| #[trigger] other.is_live(j) implies self.dual_variable_of(bias + j)
                == other.dual_variable_of(j) by {
                assert(other.node_wf(j));
                let node = self.node(bias + j);
                assert(node.dual_variable_cache == (other.dual_variable_of(j) as Weight, progress));
                let s = node.grow_state.speed();
                assert(s * (p - p) == 0) by (nonlinear_arith);
            }
            // the sums over the copied slots are those of the other interface
            assert forall|m: int| 0 <= m <= n implies nodes_dual_sum_range(self.nodes@, bias as int, m, p)
                == #[trigger] nodes_dual_sum(other.nodes@, m, other.dual_variable_global_progress as int)
                && nodes_speed_sum_range(self.nodes@, bias as int, m) == nodes_speed_sum(other.nodes@, m) by {
                self.lemma_copied_sums(other, bias as int, m, p);
            }
            lemma_sums_split(self.nodes@, bias as int, n as int, p);
            lemma_sums_prefix(start.nodes@, self.nodes@, bias as int, p);
            assert forall|j: int| #[trigger] other_start.is_live(j) implies shifted_from(
                self.node(bias + j),
                other_start.node(j),
                bias as int,
                (other_start.dual_variable_of(j) as Weight, progress),
            ) && self.dual_variable_of(bias + j) == other_start.dual_variable_of(j) by {
                assert(other.is_live(j));
            }
            assert forall|j: int| #[trigger] self.is_live(j) implies self.node_wf(j) by {
                if j < bias {
                    assert(start.is_live(j));
                    assert(start.node_wf(j));
                    if let DualNodeClass::Blossom { nodes_circle, .. } = self.node(j).class {
                        assert forall|k: int| 0 <= k < nodes_circle@.len() implies self.is_live(
                            (#[trigger] nodes_circle@[k]).index as int,
                        ) by {
                            assert(start.is_live(nodes_circle@[k].index as int));
                        }
                    }
                } else {
                    let oj = j - bias;
                    assert(self.nodes@[bias + oj] is Some);
                    assert(other.is_live(oj));
                    assert(other.node_wf(oj));
                    assert(shifted_from(self.node(bias + oj), other.node(oj), bias as int, (other.dual_variable_of(oj) as Weight, progress)));
                    assert(self.dual_variable_of(bias + oj) == other.dual_variable_of(oj));
                    if let DualNodeClass::Blossom { nodes_circle, .. } = self.node(j).class {
                        if let DualNodeClass::Blossom { nodes_circle: oc, .. } = other.node(oj).class {
                            assert forall|k: int| 0 <= k < nodes_circle@.len() implies {
                                &&& (#[trigger] nodes_circle@[k]).index < j
                                &&& self.is_live(nodes_circle@[k].index as int)
                            } by {
                                assert(nodes_circle@[k] == shift_ptr(oc@[k], bias as int));
                                assert(other.is_live(oc@[k].index as int));
                                assert(self.nodes@[bias + oc@[k].index] is Some);
                            }
                        }
                    }
                }
            }
        }
    }

    /// the slots copied from `other` hold the same sums as `other`
    proof fn lemma_copied_sums(&self, other: &DualModuleInterface, bias: int, m: int, p: int)
        requires
            0 <= m <= other.nodes_length,
            0 <= p <= DUAL_BOUND,
            other.wf(),
            bias >= 0,
            forall|j: int| 0 <= j < m ==> (#[trigger] self.nodes@[bias + j]) is Some == other.nodes@[j] is Some,
            forall|j: int|
                0 <= j < m && #[trigger] other.is_live(j) ==> shifted_from(
                    self.node(bias + j),
                    other.node(j),
                    bias,
                    (other.dual_variable_of(j) as Weight, p as Weight),
                ),
            forall|j: int| #[trigger] other.is_live(j) ==> -DUAL_BOUND <= other.dual_variable_of(j) <= DUAL_BOUND,
        ensures
            nodes_dual_sum_range(self.nodes@, bias, m, p) == nodes_dual_sum(
                other.nodes@,
                m,
                other.dual_variable_global_progress as int,
            ),
            nodes_speed_sum_range(self.nodes@, bias, m) == nodes_speed_sum(other.nodes@, m),
        decreases m,
    {
        if m > 0 {
            self.lemma_copied_sums(other, bias, m - 1, p);
            if other.nodes@[m - 1] is Some {
                assert(other.is_live(m - 1));
                let node = self.node(bias + m - 1);
                let s = node.grow_state.speed();
                assert(s * (p - p) == 0) by (nonlinear_arith);
                assert(node.spec_dual_variable(p) == other.dual_variable_of(m - 1));
            }
        }
    }

    /// fuse two interfaces by copying the nodes of `left` and then of `right` after the nodes of
    /// this one; every handle they hold moves along, each node keeps its dual variable, and all
    /// three interfaces are marked as fused
    pub fn slow_fuse(&mut self, left: &mut DualModuleInterface, right: &mut DualModuleInterface)
        requires
            old(self).wf(),
            old(left).wf(),
            old(right).wf(),
            old(self).nodes_length + old(left).nodes_length + old(right).nodes_length <= NODE_NUM_BOUND,
        ensures
            final(self).dual_variable_global_progress == old(self).dual_variable_global_progress,
            final(self).wf(),
            final(self).is_fusion,
            final(left).is_fusion,
            final(right).is_fusion,
            final(self).nodes_length == old(self).nodes_length + old(left).nodes_length + old(right).nodes_length,
            forall|j: int| 0 <= j < old(self).nodes_length ==> #[trigger] final(self).nodes@[j] == old(self).nodes@[j],
            forall|j: int|
                #[trigger] old(left).is_live(j) ==> shifted_from(
                    final(self).node(old(self).nodes_length + j),
                    old(left).node(j),
                    old(self).nodes_length as int,
                    (old(left).dual_variable_of(j) as Weight, old(self).dual_variable_global_progress),
                ),
            forall|j: int|
                #[trigger] old(right).is_live(j) ==> shifted_from(
                    final(self).node(old(self).nodes_length + old(left).nodes_length + j),
                    old(right).node(j),
                    old(self).nodes_length + old(left).nodes_length,
                    (old(right).dual_variable_of(j) as Weight, old(self).dual_variable_global_progress),
                ),
            forall|j: int|
                0 <= j < old(left).nodes_length ==> (#[trigger] final(self).nodes@[old(self).nodes_length + j]) is Some
                    == old(left).nodes@[j] is Some,
            forall|j: int|
                0 <= j < old(right).nodes_length ==> (#[trigger] final(self).nodes@[old(self).nodes_length
                    + old(left).nodes_length + j]) is Some == old(right).nodes@[j] is Some,
            final(self).sum_dual_variables == old(self).sum_dual_variables + old(left).sum_dual_variables
                + old(right).sum_dual_variables,
            final(self).sum_grow_speed == old(self).sum_grow_speed + old(left).sum_grow_speed
                + old(right).sum_grow_speed,
            final(left).nodes@ == old(left).nodes@,
            final(right).nodes@ == old(right).nodes@,
    {
        let ghost s0 = *self;
        self.absorb(left);
        let ghost s1 = *self;
        self.absorb(right);
        proof {
            assert forall|j: int| #[trigger] old(left).is_live(j) implies shifted_from(
                self.node(s0.nodes_length + j),
                old(left).node(j),
                s0.nodes_length as int,
                (old(left).dual_variable_of(j) as Weight, s0.dual_variable_global_progress),
            ) by {
                assert(self.nodes@[s0.nodes_length + j] == s1.nodes@[s0.nodes_length + j]);
            }
            assert forall|j: int|
                0 <= j < old(left).nodes_length implies (#[trigger] self.nodes@[s0.nodes_length + j]) is Some
                == old(left).nodes@[j] is Some by {
                assert(self.nodes@[s0.nodes_length + j] == s1.nodes@[s0.nodes_length + j]);
            }
        }
    }
}

impl DualModuleInterface {
    /// fuse two interfaces into this empty one: the nodes of `left` come first and those of
    /// `right` after them, as the index bias of each child records; this interface owns its nodes,
    /// so they are copied in as [`DualModuleInterface::slow_fuse`] does
    pub fn fuse(&mut self, left: &mut DualModuleInterface, right: &mut DualModuleInterface)
        requires
            old(self).wf(),
            old(left).wf(),
            old(right).wf(),
            old(self).nodes_length == 0,
            old(left).nodes_length + old(right).nodes_length <= NODE_NUM_BOUND,
        ensures
            final(self).dual_variable_global_progress == old(self).dual_variable_global_progress,
            final(self).wf(),
            final(self).is_fusion,
            final(left).is_fusion,
            final(right).is_fusion,
            final(left).index_bias == 0,
            final(right).index_bias == old(left).nodes_length,
            final(self).nodes_length == old(left).nodes_length + old(right).nodes_length,
            forall|j: int|
                #[trigger] old(left).is_live(j) ==> shifted_from(
                    final(self).node(j),
                    old(left).node(j),
                    0,
                    (old(left).dual_variable_of(j) as Weight, old(self).dual_variable_global_progress),
                ),
            forall|j: int|
                #[trigger] old(right).is_live(j) ==> shifted_from(
                    final(self).node(old(left).nodes_length + j),
                    old(right).node(j),
                    old(left).nodes_length as int,
                    (old(right).dual_variable_of(j) as Weight, old(self).dual_variable_global_progress),
                ),
            forall|j: int|
                0 <= j < old(left).nodes_length ==> (#[trigger] final(self).nodes@[j]) is Some
                    == old(left).nodes@[j] is Some,
            forall|j: int|
                0 <= j < old(right).nodes_length ==> (#[trigger] final(self).nodes@[old(left).nodes_length
                    + j]) is Some == old(right).nodes@[j] is Some,
            final(self).sum_dual_variables == old(self).sum_dual_variables + old(left).sum_dual_variables
                + old(right).sum_dual_variables,
            final(self).sum_grow_speed == old(self).sum_grow_speed + old(left).sum_grow_speed
                + old(right).sum_grow_speed,
            final(left).nodes@ == old(left).nodes@,
            final(right).nodes@ == old(right).nodes@,
    {
        let left_count = left.nodes_length;
        let ghost n0 = self.nodes_length;
        self.slow_fuse(left, right);
        left.index_bias = 0;
        right.index_bias = left_count;
        proof {
            assert forall|j: int| 0 <= j < old(left).nodes_length implies (#[trigger] self.nodes@[j]) is Some
                == old(left).nodes@[j] is Some by {
                assert(self.nodes@[n0 + j] is Some == old(left).nodes@[j] is Some);
            }
        }
    }
}

impl DualModuleInterface {
    /// an interface holding a defect node for each defect vertex of the syndrome, in order, with
    /// the erasures or dynamic weights of the syndrome loaded into the dual module
    pub fn new_load(syndrome_pattern: &SyndromePattern, dual_module: &mut DualModuleSerial) -> (r: Self)
        requires
            old(dual_module).wf(),
            old(dual_module).nodes_length == 0,
            old(dual_module).unit_module_info is None,
            old(dual_module).owning_range == (IndexRange {
                range_start: 0,
                range_end: old(dual_module).vertices@.len() as usize,
            }),
            Self::syndrome_loadable(syndrome_pattern, old(dual_module), 0),
        ensures
            r.wf(),
            final(dual_module).wf(),
            final(dual_module).synced(&r),
            r.nodes_length == syndrome_pattern.defect_vertices@.len(),
            r.dual_variable_global_progress == 0,
            forall|k: int|
                0 <= k < syndrome_pattern.defect_vertices@.len() ==> #[trigger] r.node(k) == (DualNode {
                    index: k as usize,
                    class: DualNodeClass::DefectVertex { defect_index: syndrome_pattern.defect_vertices@[k] },
                    grow_state: DualNodeGrowState::Grow,
                    parent_blossom: None,
                    dual_variable_cache: (0, 0),
                    defect_size: 1,
                }),
            final(dual_module).edge_triples() == Self::loaded_triples(syndrome_pattern, old(dual_module).edge_triples()),
    {
        let mut interface = Self::new_empty();
        interface.load(syndrome_pattern, dual_module);
        proof {
            assert forall|k: int| 0 <= k < syndrome_pattern.defect_vertices@.len() implies #[trigger] interface.node(k)
                == (DualNode {
                index: k as usize,
                class: DualNodeClass::DefectVertex { defect_index: syndrome_pattern.defect_vertices@[k] },
                grow_state: DualNodeGrowState::Grow,
                parent_blossom: None,
                dual_variable_cache: (0, 0),
                defect_size: 1,
            }) by {
                assert(interface.node(0 + k) == interface.node(k));
            }
        }
        interface
    }

    /// a syndrome can be loaded into an interface of `nodes_length` nodes and the dual module: its
    /// defect vertices are in the graph and the nodes fit, at most one of erasures and dynamic
    /// weights is given, each names edges of the graph, and the dual module has no modified edge
    /// when one is given
    pub open spec fn syndrome_loadable(
        syndrome_pattern: &SyndromePattern,
        dual_module: &DualModuleSerial,
        nodes_length: int,
    ) -> bool {
        &&& nodes_length + syndrome_pattern.defect_vertices@.len() <= NODE_NUM_BOUND
        &&& forall|k: int|
            0 <= k < syndrome_pattern.defect_vertices@.len() ==> #[trigger] syndrome_pattern.defect_vertices@[k]
                < dual_module.vertices@.len()
        &&& syndrome_pattern.erasures@.len() > 0 ==> syndrome_pattern.dynamic_weights@.len() == 0
        &&& forall|k: int|
            0 <= k < syndrome_pattern.erasures@.len() ==> #[trigger] syndrome_pattern.erasures@[k]
                < dual_module.edges@.len()
        &&& modifier_valid(dual_module.edges@.len(), syndrome_pattern.dynamic_weights@)
        &&& syndrome_pattern.erasures@.len() > 0 || syndrome_pattern.dynamic_weights@.len() > 0
            ==> dual_module.edge_modifier.modified@.len() == 0
    }

    /// the edges of the dual module after a syndrome is loaded: erased edges weigh zero, or the
    /// dynamic weights apply
    pub open spec fn loaded_triples(
        syndrome_pattern: &SyndromePattern,
        triples: Seq<(VertexIndex, VertexIndex, Weight)>,
    ) -> Seq<(VertexIndex, VertexIndex, Weight)> {
        if syndrome_pattern.erasures@.len() > 0 {
            apply_modifier(triples, syndrome_pattern.erasures@.map_values(|e: EdgeIndex| (e, 0 as Weight)))
        } else if syndrome_pattern.dynamic_weights@.len() > 0 {
            apply_modifier(triples, syndrome_pattern.dynamic_weights@)
        } else {
            triples
        }
    }

    /// create a defect node for each defect vertex of the syndrome, in order, then load its
    /// erasures or dynamic weights into the dual module
    pub fn load(&mut self, syndrome_pattern: &SyndromePattern, dual_module: &mut DualModuleSerial)
        requires
            old(self).wf(),
            old(dual_module).wf(),
            old(dual_module).synced(old(self)),
            Self::syndrome_loadable(syndrome_pattern, old(dual_module), old(self).nodes_length as int),
        ensures
            final(self).wf(),
            final(dual_module).wf(),
            final(dual_module).synced(final(self)),
            final(self).nodes_length == old(self).nodes_length + syndrome_pattern.defect_vertices@.len(),
            final(self).dual_variable_global_progress == old(self).dual_variable_global_progress,
            forall|j: int| 0 <= j < old(self).nodes_length ==> #[trigger] final(self).nodes@[j] == old(self).nodes@[j],
            forall|k: int|
                0 <= k < syndrome_pattern.defect_vertices@.len() ==> #[trigger] final(self).node(
                    old(self).nodes_length + k,
                ) == (DualNode {
                    index: (old(self).nodes_length + k) as usize,
                    class: DualNodeClass::DefectVertex { defect_index: syndrome_pattern.defect_vertices@[k] },
                    grow_state: DualNodeGrowState::Grow,
                    parent_blossom: None,
                    dual_variable_cache: (0, old(self).dual_variable_global_progress),
                    defect_size: 1,
                }),
            final(dual_module).edge_triples() == Self::loaded_triples(syndrome_pattern, old(dual_module).edge_triples()),
    {
        let ghost start = *self;
        let ghost serial_start = *dual_module;
        let mut i: usize = 0;
        while i < syndrome_pattern.defect_vertices.len()
            invariant
                i <= syndrome_pattern.defect_vertices@.len(),
                self.wf(),
                dual_module.wf(),
                dual_module.synced(self),
                Self::syndrome_loadable(syndrome_pattern, &serial_start, start.nodes_length as int),
                self.nodes_length == start.nodes_length + i,
                self.dual_variable_global_progress == start.dual_variable_global_progress,
                dual_module.vertices@.len() == serial_start.vertices@.len(),
                dual_module.edges@.len() == serial_start.edges@.len(),
                dual_module.edge_triples() == serial_start.edge_triples(),
                dual_module.edge_modifier == serial_start.edge_modifier,
                forall|j: int| 0 <= j < start.nodes_length ==> #[trigger] self.nodes@[j] == start.nodes@[j],
                forall|k: int|
                    0 <= k < i ==> #[trigger] self.node(start.nodes_length + k) == (DualNode {
                        index: (start.nodes_length + k) as usize,
                        class: DualNodeClass::DefectVertex { defect_index: syndrome_pattern.defect_vertices@[k] },
                        grow_state: DualNodeGrowState::Grow,
                        parent_blossom: None,
                        dual_variable_cache: (0, start.dual_variable_global_progress),
                        defect_size: 1,
                    }),
            decreases syndrome_pattern.defect_vertices@.len() - i,
        {
            let vertex_idx = syndrome_pattern.defect_vertices[i];
            let ghost before = *self;
            let ghost serial_before = *dual_module;
            let ptr = self.create_defect_node(vertex_idx, dual_module);
            proof {
                assert(ptr.index == start.nodes_length + i);
                assert(self.node(start.nodes_length + i) == self.node(ptr.index as int));
                assert forall|j: int| 0 <= j < start.nodes_length implies #[trigger] self.nodes@[j] == start.nodes@[j] by {
                    assert(self.nodes@[j] == before.nodes@[j]);
                }
                assert forall|k: int| 0 <= k < i + 1 implies #[trigger] self.node(start.nodes_length + k) == (DualNode {
                    index: (start.nodes_length + k) as usize,
                    class: DualNodeClass::DefectVertex { defect_index: syndrome_pattern.defect_vertices@[k] },
                    grow_state: DualNodeGrowState::Grow,
                    parent_blossom: None,
                    dual_variable_cache: (0, start.dual_variable_global_progress),
                    defect_size: 1,
                }) by {
                    if k < i {
                        assert(self.nodes@[start.nodes_length + k] == before.nodes@[start.nodes_length + k]);
                        assert(self.node(start.nodes_length + k) == before.node(start.nodes_length + k));
                    } else {
                        assert(k == i);
                    }
                }
            }
            i = i + 1;
        }
        if syndrome_pattern.erasures.len() > 0 {
            let ghost pre = *dual_module;
            dual_module.load_erasures(&syndrome_pattern.erasures);
            proof {
                DualModuleSerial::lemma_synced_frame(&pre, dual_module, self);
            }
        } else if syndrome_pattern.dynamic_weights.len() > 0 {
            let ghost pre = *dual_module;
            dual_module.load_dynamic_weights(&syndrome_pattern.dynamic_weights);
            proof {
                DualModuleSerial::lemma_synced_frame(&pre, dual_module, self);
            }
        }
    }
}

/// each live node contributes at most `DUAL_BOUND` in absolute value, so the sums are bounded
pub proof fn lemma_dual_sum_bound_wf(interface: &DualModuleInterface)
    requires
        interface.wf(),
    ensures
        -(interface.nodes_length as int) * DUAL_BOUND <= interface.sum_dual_variables <= interface.nodes_length
            * DUAL_BOUND,
        forall|j: int| #[trigger] interface.is_live(j) ==> -DUAL_BOUND <= interface.dual_variable_of(j) <= DUAL_BOUND,
{
    let n = interface.nodes_length as int;
    let p = interface.dual_variable_global_progress as int;
    assert forall|i: int| 0 <= i < n implies match #[trigger] interface.nodes@[i] {
        Some(node) => -DUAL_BOUND <= node.spec_dual_variable(p) <= DUAL_BOUND,
        None => true,
    } by {
        if interface.nodes@[i] is Some {
            assert(interface.is_live(i));
            assert(interface.node_wf(i));
        }
    }
    lemma_dual_sum_bound(interface.nodes@, n, p);
    assert forall|j: int| #[trigger] interface.is_live(j) implies -DUAL_BOUND <= interface.dual_variable_of(j)
        <= DUAL_BOUND by {
        assert(interface.node_wf(j));
    }
}

} // verus!
