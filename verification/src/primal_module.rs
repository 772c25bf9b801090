//! Primal Module
//!
//! The results a primal module produces: the intermediate matching between dual nodes, which may
//! be blossoms, its expansion into a perfect matching between defect nodes, and the subgraph of
//! the decoding graph that realizes a perfect matching.
//!

use crate::dual_module::{count_in, DualModuleInterface, DualNodeClass, DualNodePtr, DualNodeWeak};
use crate::complete_graph::{endpoints, joins, path_weight, CompleteGraph, MAX_EDGE_WEIGHT, MAX_VERTEX_NUM, edges_valid};
use crate::util::{DefectIndex, EdgeIndex, SolverInitializer, VertexIndex, VertexNum, Weight};
use std::collections::{BTreeMap, BTreeSet};
use vstd::prelude::*;

verus! {

/// matched pairs of dual nodes, each with the node inside it that touches the other side
pub struct IntermediateMatching {
    /// matched pairs; note that each pair will only appear once. (node_1, touching_1), (node_2, touching_2)
    pub peer_matchings: Vec<((DualNodePtr, DualNodeWeak), (DualNodePtr, DualNodeWeak))>,
    /// those nodes matched to the boundary. ((node, touching), virtual_vertex)
    pub virtual_matchings: Vec<((DualNodePtr, DualNodeWeak), VertexIndex)>,
}

/// matched pairs of defect nodes
pub struct PerfectMatching {
    /// matched pairs; note that each pair will only appear once. (defect_node_1, defect_node_2)
    pub peer_matchings: Vec<(DualNodePtr, DualNodePtr)>,
    /// those nodes matched to the boundary. (syndrome node, virtual_vertex)
    pub virtual_matchings: Vec<(DualNodePtr, VertexIndex)>,
}

/// the live node `ptr` of the interface is a defect node
pub open spec fn is_defect_node(interface: &DualModuleInterface, ptr: DualNodePtr) -> bool {
    &&& interface.is_live(ptr.index as int)
    &&& interface.node(ptr.index as int).class is DefectVertex
}

/// the vertex of the defect node `ptr`
pub open spec fn defect_of(interface: &DualModuleInterface, ptr: DualNodePtr) -> VertexIndex {
    interface.node(ptr.index as int).class->defect_index
}

/// the partner of each defect vertex in the matched pairs; a later pair overrides an earlier one
pub open spec fn peer_partners(interface: &DualModuleInterface, pairs: Seq<(DualNodePtr, DualNodePtr)>) -> Map<
    VertexIndex,
    VertexIndex,
>
    decreases pairs.len(),
{
    if pairs.len() == 0 {
        Map::empty()
    } else {
        let a = defect_of(interface, pairs.last().0);
        let b = defect_of(interface, pairs.last().1);
        peer_partners(interface, pairs.drop_last()).insert(a, b).insert(b, a)
    }
}

/// the virtual vertex each defect vertex is matched to; a later pair overrides an earlier one
pub open spec fn virtual_partners(interface: &DualModuleInterface, pairs: Seq<(DualNodePtr, VertexIndex)>) -> Map<
    VertexIndex,
    VertexIndex,
>
    decreases pairs.len(),
{
    if pairs.len() == 0 {
        Map::empty()
    } else {
        virtual_partners(interface, pairs.drop_last()).insert(defect_of(interface, pairs.last().0), pairs.last().1)
    }
}

/// the vertex a defect vertex is matched to: its peer, or else its virtual vertex
pub open spec fn matched_to(
    peers: Map<VertexIndex, VertexIndex>,
    virtuals: Map<VertexIndex, VertexIndex>,
    d: VertexIndex,
) -> VertexIndex {
    if peers.contains_key(d) {
        peers[d]
    } else {
        virtuals[d]
    }
}

/// the vertex of a defect node
fn defect_vertex_of(interface: &DualModuleInterface, ptr: &DualNodePtr) -> (r: VertexIndex)
    requires
        interface.nodes_length <= interface.nodes@.len(),
        is_defect_node(interface, *ptr),
    ensures
        r == defect_of(interface, *ptr),
{
    match &interface.nodes[ptr.index] {
        Some(node) => match &node.class {
            DualNodeClass::DefectVertex { defect_index } => *defect_index,
            DualNodeClass::Blossom { .. } => 0,
        },
        None => 0,
    }
}

impl PerfectMatching {
    pub fn new() -> (r: Self)
        ensures
            r.peer_matchings@.len() == 0,
            r.virtual_matchings@.len() == 0,
    {
        PerfectMatching { peer_matchings: Vec::new(), virtual_matchings: Vec::new() }
    }

    /// every node of the matching is a defect node of the interface
    pub open spec fn on_defects(&self, interface: &DualModuleInterface) -> bool {
        &&& forall|i: int|
            0 <= i < self.peer_matchings@.len() ==> is_defect_node(interface, (#[trigger] self.peer_matchings@[i]).0)
                && is_defect_node(interface, self.peer_matchings@[i].1)
        &&& forall|i: int|
            0 <= i < self.virtual_matchings@.len() ==> is_defect_node(
                interface,
                (#[trigger] self.virtual_matchings@[i]).0,
            )
    }

    /// for each defect vertex, the vertex it is matched to: its peer, or else the virtual vertex;
    /// this is the form of the result of blossom V
    pub fn legacy_get_mwpm_result(
        &self,
        interface: &DualModuleInterface,
        defect_vertices: Vec<VertexIndex>,
    ) -> (r: Vec<DefectIndex>)
        requires
            interface.nodes_length <= interface.nodes@.len(),
            self.on_defects(interface),
            forall|i: int|
                0 <= i < defect_vertices@.len() ==> peer_partners(interface, self.peer_matchings@).contains_key(
                    #[trigger] defect_vertices@[i],
                ) || virtual_partners(interface, self.virtual_matchings@).contains_key(defect_vertices@[i]),
        ensures
            r@.len() == defect_vertices@.len(),
            forall|i: int|
                0 <= i < defect_vertices@.len() ==> #[trigger] r@[i] == matched_to(
                    peer_partners(interface, self.peer_matchings@),
                    virtual_partners(interface, self.virtual_matchings@),
                    defect_vertices@[i],
                ),
    {
        broadcast use vstd::std_specs::btree::group_btree_axioms;

        let mut peer_matching_maps: BTreeMap<VertexIndex, VertexIndex> = BTreeMap::new();
        let mut i: usize = 0;
        while i < self.peer_matchings.len()
            invariant
                i <= self.peer_matchings@.len(),
                interface.nodes_length <= interface.nodes@.len(),
                self.on_defects(interface),
                peer_matching_maps@ == peer_partners(interface, self.peer_matchings@.take(i as int)),
            decreases self.peer_matchings@.len() - i,
        {
            let (ptr_1, ptr_2) = self.peer_matchings[i];
            proof {
                assert(self.peer_matchings@[i as int] == (ptr_1, ptr_2));
            }
            let a_vid = defect_vertex_of(interface, &ptr_1);
            let b_vid = defect_vertex_of(interface, &ptr_2);
            peer_matching_maps.insert(a_vid, b_vid);
            peer_matching_maps.insert(b_vid, a_vid);
            proof {
                let next = self.peer_matchings@.take(i + 1);
                assert(next.drop_last() =~= self.peer_matchings@.take(i as int));
                assert(next.last() == (ptr_1, ptr_2));
            }
            i = i + 1;
        }
        proof {
            assert(self.peer_matchings@.take(self.peer_matchings@.len() as int) =~= self.peer_matchings@);
        }
        let mut virtual_matching_maps: BTreeMap<VertexIndex, VertexIndex> = BTreeMap::new();
        let mut j: usize = 0;
        while j < self.virtual_matchings.len()
            invariant
                j <= self.virtual_matchings@.len(),
                interface.nodes_length <= interface.nodes@.len(),
                self.on_defects(interface),
                virtual_matching_maps@ == virtual_partners(interface, self.virtual_matchings@.take(j as int)),
            decreases self.virtual_matchings@.len() - j,
        {
            let (ptr, virtual_vertex) = self.virtual_matchings[j];
            proof {
                assert(self.virtual_matchings@[j as int] == (ptr, virtual_vertex));
            }
            let a_vid = defect_vertex_of(interface, &ptr);
            virtual_matching_maps.insert(a_vid, virtual_vertex);
            proof {
                let next = self.virtual_matchings@.take(j + 1);
                assert(next.drop_last() =~= self.virtual_matchings@.take(j as int));
                assert(next.last() == (ptr, virtual_vertex));
            }
            j = j + 1;
        }
        proof {
            assert(self.virtual_matchings@.take(self.virtual_matchings@.len() as int) =~= self.virtual_matchings@);
        }
        let ghost peers = peer_partners(interface, self.peer_matchings@);
        let ghost virtuals = virtual_partners(interface, self.virtual_matchings@);
        let mut mwpm_result: Vec<DefectIndex> = Vec::new();
        let mut k: usize = 0;
        while k < defect_vertices.len()
            invariant
                k <= defect_vertices@.len(),
                peer_matching_maps@ == peers,
                virtual_matching_maps@ == virtuals,
                forall|i: int|
                    0 <= i < defect_vertices@.len() ==> peers.contains_key(#[trigger] defect_vertices@[i])
                        || virtuals.contains_key(defect_vertices@[i]),
                mwpm_result@.len() == k,
                forall|i: int|
                    0 <= i < k ==> #[trigger] mwpm_result@[i] == matched_to(peers, virtuals, defect_vertices@[i]),
            decreases defect_vertices@.len() - k,
        {
            let defect_vertex = defect_vertices[k];
            let partner = match peer_matching_maps.get(&defect_vertex) {
                Some(a) => *a,
                None => match virtual_matching_maps.get(&defect_vertex) {
                    Some(v) => *v,
                    None => 0,
                },
            };
            mwpm_result.push(partner);
            k = k + 1;
        }
        mwpm_result
    }
}

impl IntermediateMatching {
    pub fn new() -> (r: Self)
        ensures
            r.peer_matchings@.len() == 0,
            r.virtual_matchings@.len() == 0,
    {
        IntermediateMatching { peer_matchings: Vec::new(), virtual_matchings: Vec::new() }
    }

    /// move the matchings of `other` after those of this one
    pub fn append(&mut self, other: &mut Self)
        ensures
            final(self).peer_matchings@ == old(self).peer_matchings@ + old(other).peer_matchings@,
            final(self).virtual_matchings@ == old(self).virtual_matchings@ + old(other).virtual_matchings@,
            final(other).peer_matchings@.len() == 0,
            final(other).virtual_matchings@.len() == 0,
    {
        self.peer_matchings.append(&mut other.peer_matchings);
        self.virtual_matchings.append(&mut other.virtual_matchings);
    }
}


/// following parent blossoms from slot `t` leads to slot `b`
pub open spec fn chain_reaches(interface: &DualModuleInterface, t: int, b: int) -> bool
    decreases b - t,
{
    if t == b {
        true
    } else if t < b && interface.is_live(t) {
        match interface.node(t).parent_blossom {
            Some(p) => t < p.index <= b && chain_reaches(interface, p.index as int, b),
            None => false,
        }
    } else {
        false
    }
}

/// the touching children of the `q`-th node in the circle of the live blossom `i` lie below that
/// node
pub open spec fn touching_ok(interface: &DualModuleInterface, i: int, q: int) -> bool {
    let c = interface.circle_of(i)[q].index as int;
    let (t1, t2) = interface.node(i).class->touching_children@[q];
    chain_reaches(interface, t1.index as int, c) && chain_reaches(interface, t2.index as int, c)
}

/// every touching child of every live blossom lies below the circle node it stands for
pub open spec fn touching_below(interface: &DualModuleInterface) -> bool {
    forall|i: int, q: int|
        interface.is_live(i) && interface.node(i).class is Blossom && 0 <= q < interface.circle_of(i).len()
            ==> #[trigger] touching_ok(interface, i, q)
}

/// the interface is ready for expanding matchings
pub open spec fn expandable(interface: &DualModuleInterface) -> bool {
    &&& interface.wf()
    &&& interface.consistent()
    &&& touching_below(interface)
}

/// the chain from `t` to `b` passes through live slots only, ending at `b`
proof fn lemma_chain_bounds(interface: &DualModuleInterface, t: int, b: int)
    requires
        chain_reaches(interface, t, b),
        interface.is_live(b),
    ensures
        t <= b,
        interface.is_live(t),
    decreases b - t,
{
    if t != b {
        let p = interface.node(t).parent_blossom->Some_0.index as int;
        lemma_chain_bounds(interface, p, b);
    }
}

/// chains compose
proof fn lemma_chain_trans(interface: &DualModuleInterface, x: int, y: int, z: int)
    requires
        chain_reaches(interface, x, y),
        chain_reaches(interface, y, z),
        interface.is_live(z),
    ensures
        chain_reaches(interface, x, z),
    decreases y - x,
{
    lemma_chain_bounds(interface, y, z);
    if x != y {
        let p = interface.node(x).parent_blossom->Some_0.index as int;
        lemma_chain_trans(interface, p, y, z);
    }
}

/// a node counted in a circle occurs in it
proof fn lemma_count_position(circle: Seq<DualNodePtr>, i: int)
    requires
        count_in(circle, i) > 0,
    ensures
        exists|k: int| 0 <= k < circle.len() && circle[k].index == i,
    decreases circle.len(),
{
    if circle.last().index != i {
        lemma_count_position(circle.drop_last(), i);
        let k = choose|k: int| 0 <= k < circle.drop_last().len() && circle.drop_last()[k].index == i;
        assert(circle[k].index == i);
    } else {
        assert(circle[circle.len() - 1].index == i);
    }
}

/// the first position, from `k` on, of node `i` in a circle (the length if there is none)
pub open spec fn first_position(circle: Seq<DualNodePtr>, i: usize, k: int) -> int
    decreases circle.len() - k,
{
    if k >= circle.len() {
        circle.len() as int
    } else if circle[k].index == i {
        k
    } else {
        first_position(circle, i, k + 1)
    }
}

/// the position `off` places after `idx` in a circle of `len` positions
pub open spec fn spec_add_mod(idx: int, off: int, len: int) -> int {
    if idx + off >= len {
        idx + off - len
    } else {
        idx + off
    }
}

/// the pairs of expanding a matched pair: both sides expanded down to their touching nodes, then
/// the two touching nodes matched
pub open spec fn peer_pairs(
    interface: &DualModuleInterface,
    n1: DualNodePtr,
    t1: DualNodePtr,
    n2: DualNodePtr,
    t2: DualNodePtr,
) -> Seq<(DualNodePtr, DualNodePtr)>
    decreases (if n1.index < n2.index {
        n2.index
    } else {
        n1.index
    }) as int, 3int, 0int,
{
    blossom_pairs(interface, n1.index as int, t1.index as int) + blossom_pairs(
        interface,
        n2.index as int,
        t2.index as int,
    ) + seq![(t1, t2)]
}

/// the pairs of expanding blossom `b` down to its touching node `t`
pub open spec fn blossom_pairs(interface: &DualModuleInterface, b: int, t: int) -> Seq<(DualNodePtr, DualNodePtr)>
    decreases b, 2int, 0int,
{
    level_chain_pairs(interface, b, t)
}

/// the pairs of every level from node `child` up to blossom `b`: at each level the other nodes of
/// the parent's circle, from the one after `child` on, are matched in consecutive pairs
pub open spec fn level_chain_pairs(interface: &DualModuleInterface, b: int, child: int) -> Seq<
    (DualNodePtr, DualNodePtr),
>
    decreases b, 1int, b - child,
{
    if child < b && interface.is_live(child) && interface.node(child).parent_blossom is Some && child
        < interface.node(child).parent_blossom->Some_0.index <= b {
        let parent = interface.node(child).parent_blossom->Some_0.index as int;
        let level = if interface.node(parent).class is Blossom {
            level_pairs(
                interface,
                b,
                parent,
                first_position(interface.circle_of(parent), child as usize, 0),
                0,
            )
        } else {
            Seq::empty()
        };
        level + level_chain_pairs(interface, b, parent)
    } else {
        Seq::empty()
    }
}

/// the pairs of one level, from the `i`-th node after position `idx` of the circle of `parent` on
pub open spec fn level_pairs(interface: &DualModuleInterface, b: int, parent: int, idx: int, i: int) -> Seq<
    (DualNodePtr, DualNodePtr),
>
    decreases b, 0int, interface.circle_of(parent).len() - i,
{
    let circle = interface.circle_of(parent);
    let len = circle.len() as int;
    if 0 <= i && i + 1 < len && 0 <= idx < len {
        let i1 = spec_add_mod(idx, i + 1, len);
        let i2 = spec_add_mod(idx, i + 2, len);
        let touching = interface.node(parent).class->touching_children@;
        let n1 = circle[i1];
        let n2 = circle[i2];
        if n1.index < b && n2.index < b {
            peer_pairs(interface, n1, touching[i1].1, n2, touching[i2].0) + level_pairs(
                interface,
                b,
                parent,
                idx,
                i + 2,
            )
        } else {
            Seq::empty()
        }
    } else {
        Seq::empty()
    }
}

/// in the circle of blossom `c`, `x` is the child of the `i`-th node that touches the next node
/// (its right touching child) and `y` the child of the next node that touches the `i`-th one (its
/// left touching child)
pub open spec fn touching_at(interface: &DualModuleInterface, c: int, i: int, x: DualNodePtr, y: DualNodePtr) -> bool {
    let len = interface.circle_of(c).len() as int;
    let touching = interface.node(c).class->touching_children@;
    &&& interface.node(c).class is Blossom
    &&& 0 <= i < len
    &&& x == touching[i].1
    &&& y == touching[spec_add_mod(i, 1, len)].0
}

/// `x` and `y` touch each other across two neighbouring nodes of the circle of some blossom
pub open spec fn touches(interface: &DualModuleInterface, x: DualNodePtr, y: DualNodePtr) -> bool {
    exists|c: int, i: int| #[trigger] touching_at(interface, c, i, x, y)
}

/// every pair of `pairs` joins two nodes that touch each other
pub open spec fn all_touching(interface: &DualModuleInterface, pairs: Seq<(DualNodePtr, DualNodePtr)>) -> bool {
    forall|k: int| 0 <= k < pairs.len() ==> touches(interface, (#[trigger] pairs[k]).0, pairs[k].1)
}

/// pairs that all touch stay so when joined
proof fn lemma_all_touching_add(interface: &DualModuleInterface, a: Seq<(DualNodePtr, DualNodePtr)>, b: Seq<(DualNodePtr, DualNodePtr)>)
    requires
        all_touching(interface, a),
        all_touching(interface, b),
    ensures
        all_touching(interface, a + b),
{
    assert forall|k: int| 0 <= k < (a + b).len() implies touches(interface, (#[trigger] (a + b)[k]).0, (a + b)[k].1) by {
        if k < a.len() {
            assert((a + b)[k] == a[k]);
        } else {
            assert((a + b)[k] == b[k - a.len()]);
        }
    }
}

/// Expanding a matched pair matches only nodes that touch each other, before the matched pair
/// itself.
pub proof fn lemma_peer_pairs_touch(
    interface: &DualModuleInterface,
    n1: DualNodePtr,
    t1: DualNodePtr,
    n2: DualNodePtr,
    t2: DualNodePtr,
)
    ensures
        all_touching(interface, peer_pairs(interface, n1, t1, n2, t2).drop_last()),
    decreases (if n1.index < n2.index {
        n2.index
    } else {
        n1.index
    }) as int, 3int, 0int,
{
    lemma_blossom_pairs_touch(interface, n1.index as int, t1.index as int);
    lemma_blossom_pairs_touch(interface, n2.index as int, t2.index as int);
    let a = blossom_pairs(interface, n1.index as int, t1.index as int);
    let b = blossom_pairs(interface, n2.index as int, t2.index as int);
    lemma_all_touching_add(interface, a, b);
    assert(peer_pairs(interface, n1, t1, n2, t2).drop_last() =~= a + b);
}

/// Expanding a blossom down to a touching node matches only nodes that touch each other: at each
/// level, the right touching child of a node of the circle with the left touching child of the
/// next node.
pub proof fn lemma_blossom_pairs_touch(interface: &DualModuleInterface, b: int, t: int)
    ensures
        all_touching(interface, blossom_pairs(interface, b, t)),
    decreases b, 2int, 0int,
{
    lemma_level_chain_touch(interface, b, t);
}

/// the pairs of every level from `child` up to `b` touch
proof fn lemma_level_chain_touch(interface: &DualModuleInterface, b: int, child: int)
    ensures
        all_touching(interface, level_chain_pairs(interface, b, child)),
    decreases b, 1int, b - child,
{
    if child < b && interface.is_live(child) && interface.node(child).parent_blossom is Some && child
        < interface.node(child).parent_blossom->Some_0.index <= b {
        let parent = interface.node(child).parent_blossom->Some_0.index as int;
        let level = if interface.node(parent).class is Blossom {
            level_pairs(
                interface,
                b,
                parent,
                first_position(interface.circle_of(parent), child as usize, 0),
                0,
            )
        } else {
            Seq::empty()
        };
        if interface.node(parent).class is Blossom {
            lemma_level_touch(interface, b, parent, first_position(interface.circle_of(parent), child as usize, 0), 0);
        }
        lemma_level_chain_touch(interface, b, parent);
        lemma_all_touching_add(interface, level, level_chain_pairs(interface, b, parent));
    }
}

/// the pairs of one level touch
proof fn lemma_level_touch(interface: &DualModuleInterface, b: int, parent: int, idx: int, i: int)
    requires
        interface.node(parent).class is Blossom,
    ensures
        all_touching(interface, level_pairs(interface, b, parent, idx, i)),
    decreases b, 0int, interface.circle_of(parent).len() - i,
{
    let circle = interface.circle_of(parent);
    let len = circle.len() as int;
    if 0 <= i && i + 1 < len && 0 <= idx < len {
        let i1 = spec_add_mod(idx, i + 1, len);
        let i2 = spec_add_mod(idx, i + 2, len);
        let touching = interface.node(parent).class->touching_children@;
        let n1 = circle[i1];
        let n2 = circle[i2];
        if n1.index < b && n2.index < b {
            let t1 = touching[i1].1;
            let t2 = touching[i2].0;
            lemma_peer_pairs_touch(interface, n1, t1, n2, t2);
            lemma_level_touch(interface, b, parent, idx, i + 2);
            let pp = peer_pairs(interface, n1, t1, n2, t2);
            assert(i2 == spec_add_mod(i1, 1, len));
            assert(touching_at(interface, parent, i1, t1, t2));
            assert(all_touching(interface, seq![(t1, t2)]));
            lemma_all_touching_add(interface, pp.drop_last(), seq![(t1, t2)]);
            assert(pp =~= pp.drop_last() + seq![(t1, t2)]);
            lemma_all_touching_add(interface, pp, level_pairs(interface, b, parent, idx, i + 2));
        }
    }
}

/// the position of node `i` in a circle
fn position_in(circle: &Vec<DualNodePtr>, i: usize) -> (r: usize)
    requires
        exists|k: int| 0 <= k < circle@.len() && circle@[k].index == i,
    ensures
        r < circle@.len(),
        circle@[r as int].index == i,
        r == first_position(circle@, i, 0),
{
    let mut k: usize = 0;
    while k < circle.len()
        invariant
            k <= circle@.len(),
            forall|j: int| 0 <= j < k ==> circle@[j].index != i,
            exists|j: int| 0 <= j < circle@.len() && circle@[j].index == i,
            first_position(circle@, i, k as int) == first_position(circle@, i, 0),
        decreases circle@.len() - k,
    {
        if circle[k].index == i {
            return k;
        }
        k = k + 1;
    }
    0
}

/// every node of every pair lies below slot `b`
pub open spec fn pairs_below(interface: &DualModuleInterface, pairs: Seq<(DualNodePtr, DualNodePtr)>, b: int) -> bool {
    forall|k: int|
        0 <= k < pairs.len() ==> chain_reaches(interface, (#[trigger] pairs[k]).0.index as int, b)
            && chain_reaches(interface, pairs[k].1.index as int, b)
}

/// every node of every pair lies below slot `a` or below slot `b`
pub open spec fn pairs_below_either(
    interface: &DualModuleInterface,
    pairs: Seq<(DualNodePtr, DualNodePtr)>,
    a: int,
    b: int,
) -> bool {
    forall|k: int|
        0 <= k < pairs.len() ==> {
            &&& chain_reaches(interface, (#[trigger] pairs[k]).0.index as int, a) || chain_reaches(
                interface,
                pairs[k].0.index as int,
                b,
            )
            &&& chain_reaches(interface, pairs[k].1.index as int, a) || chain_reaches(
                interface,
                pairs[k].1.index as int,
                b,
            )
        }
}

/// the position `off` places after `idx` in a circle of `len` positions
fn add_mod(idx: usize, off: usize, len: usize) -> (r: usize)
    requires
        idx < len,
        off <= len,
    ensures
        r < len,
        r == (if idx + off >= len {
            idx + off - len
        } else {
            idx + off
        }),
{
    if idx >= len - off {
        idx - (len - off)
    } else {
        idx + off
    }
}

/// append `more` to `pairs`
fn extend_pairs(pairs: &mut Vec<(DualNodePtr, DualNodePtr)>, more: Vec<(DualNodePtr, DualNodePtr)>)
    ensures
        final(pairs)@ == old(pairs)@ + more@,
{
    let mut more = more;
    pairs.append(&mut more);
}

impl IntermediateMatching {
    /// break down a single matched pair: each side is expanded down to its touching node, and the
    /// two touching nodes are matched
    pub fn expand_peer_matching(
        interface: &DualModuleInterface,
        dual_node_ptr_1: &DualNodePtr,
        touching_ptr_1: &DualNodePtr,
        dual_node_ptr_2: &DualNodePtr,
        touching_ptr_2: &DualNodePtr,
    ) -> (r: Vec<(DualNodePtr, DualNodePtr)>)
        requires
            expandable(interface),
            interface.is_live(dual_node_ptr_1.index as int),
            interface.is_live(dual_node_ptr_2.index as int),
            chain_reaches(interface, touching_ptr_1.index as int, dual_node_ptr_1.index as int),
            chain_reaches(interface, touching_ptr_2.index as int, dual_node_ptr_2.index as int),
        ensures
            r@.len() >= 1,
            r@.last() == (*touching_ptr_1, *touching_ptr_2),
            pairs_below_either(interface, r@, dual_node_ptr_1.index as int, dual_node_ptr_2.index as int),
            r@ == peer_pairs(interface, *dual_node_ptr_1, *touching_ptr_1, *dual_node_ptr_2, *touching_ptr_2),
            all_touching(interface, r@.drop_last()),
        decreases
            if dual_node_ptr_1.index < dual_node_ptr_2.index {
                dual_node_ptr_2.index
            } else {
                dual_node_ptr_1.index
            },
            2int,
    {
        proof {
            lemma_peer_pairs_touch(interface, *dual_node_ptr_1, *touching_ptr_1, *dual_node_ptr_2, *touching_ptr_2);
        }
        let mut perfect_matching: Vec<(DualNodePtr, DualNodePtr)> = Vec::new();
        let first = Self::expand_blossom(interface, dual_node_ptr_1, touching_ptr_1);
        extend_pairs(&mut perfect_matching, first);
        let second = Self::expand_blossom(interface, dual_node_ptr_2, touching_ptr_2);
        let ghost before = perfect_matching@;
        extend_pairs(&mut perfect_matching, second);
        let ghost middle = perfect_matching@;
        perfect_matching.push((*touching_ptr_1, *touching_ptr_2));
        proof {
            assert(perfect_matching@ =~= first@ + second@ + seq![(*touching_ptr_1, *touching_ptr_2)]);
            let a = dual_node_ptr_1.index as int;
            let b = dual_node_ptr_2.index as int;
            assert forall|k: int| 0 <= k < perfect_matching@.len() implies {
                &&& chain_reaches(interface, (#[trigger] perfect_matching@[k]).0.index as int, a)
                    || chain_reaches(interface, perfect_matching@[k].0.index as int, b)
                &&& chain_reaches(interface, perfect_matching@[k].1.index as int, a) || chain_reaches(
                    interface,
                    perfect_matching@[k].1.index as int,
                    b,
                )
            } by {
                if k < before.len() {
                    assert(perfect_matching@[k] == first@[k]);
                } else if k < middle.len() {
                    assert(perfect_matching@[k] == second@[k - before.len()]);
                }
            }
        }
        perfect_matching
    }

    /// expand a blossom down to its touching node: at each level from the touching node up, the
    /// other nodes of the circle are matched in consecutive pairs; the structure is left as it is
    #[verifier::spinoff_prover]
    #[verifier::rlimit(100)]
    pub fn expand_blossom(
        interface: &DualModuleInterface,
        blossom_ptr: &DualNodePtr,
        touching_ptr: &DualNodePtr,
    ) -> (r: Vec<(DualNodePtr, DualNodePtr)>)
        requires
            expandable(interface),
            interface.is_live(blossom_ptr.index as int),
            chain_reaches(interface, touching_ptr.index as int, blossom_ptr.index as int),
        ensures
            pairs_below(interface, r@, blossom_ptr.index as int),
            r@ == blossom_pairs(interface, blossom_ptr.index as int, touching_ptr.index as int),
            all_touching(interface, r@),
            touching_ptr.index == blossom_ptr.index ==> r@.len() == 0,
            touching_ptr.index != blossom_ptr.index && interface.circle_of(
                interface.node(touching_ptr.index as int).parent_blossom->Some_0.index as int,
            ).len() >= 2 ==> r@.len() >= 1,
        decreases blossom_ptr.index, 1int,
    {
        let b = blossom_ptr.index;
        let mut perfect_matching: Vec<(DualNodePtr, DualNodePtr)> = Vec::new();
        let mut child = touching_ptr.index;
        let ghost t = touching_ptr.index;
        let ghost big = t != b && interface.circle_of(interface.node(t as int).parent_blossom->Some_0.index as int).len() >= 2;
        proof {
            lemma_chain_bounds(interface, child as int, b as int);
        }
        while child != b
            invariant
                expandable(interface),
                b == blossom_ptr.index,
                interface.is_live(b as int),
                chain_reaches(interface, child as int, b as int),
                child <= b,
                pairs_below(interface, perfect_matching@, b as int),
                t == touching_ptr.index,
                big == (t != b && interface.circle_of(interface.node(t as int).parent_blossom->Some_0.index as int).len() >= 2),
                t <= child,
                child == t ==> perfect_matching@.len() == 0,
                big && child != t ==> perfect_matching@.len() >= 1,
                perfect_matching@ + level_chain_pairs(interface, b as int, child as int) == level_chain_pairs(
                    interface,
                    b as int,
                    t as int,
                ),
            decreases b - child,
        {
            let ghost c = child as int;
            proof {
                lemma_chain_bounds(interface, c, b as int);
                assert(interface.node_wf(c));
                assert(interface.node_consistent(c));
            }
            let parent = match &interface.nodes[child] {
                Some(node) => match node.parent_blossom {
                    Some(p) => p.index,
                    None => b,
                },
                None => b,
            };
            proof {
                assert(parent as int == interface.node(c).parent_blossom->Some_0.index);
                assert(parent > child);
                assert(chain_reaches(interface, parent as int, b as int));
                lemma_chain_bounds(interface, parent as int, b as int);
                assert(interface.node_wf(parent as int));
                assert(interface.node(parent as int).class is Blossom);
                assert(count_in(interface.circle_of(parent as int), c) == 1);
                lemma_count_position(interface.circle_of(parent as int), c);
            }
            let ghost pm0 = perfect_matching@;
            proof {
                assert(level_chain_pairs(interface, b as int, c) == (if interface.node(parent as int).class is Blossom {
                    level_pairs(
                        interface,
                        b as int,
                        parent as int,
                        first_position(interface.circle_of(parent as int), child, 0),
                        0,
                    )
                } else {
                    Seq::empty()
                }) + level_chain_pairs(interface, b as int, parent as int));
            }
            match &interface.nodes[parent] {
                Some(parent_node) => match &parent_node.class {
                    DualNodeClass::Blossom { nodes_circle, touching_children } => {
                        let ghost circle = nodes_circle@;
                        proof {
                            assert(circle == interface.circle_of(parent as int));
                        }
                        let idx = position_in(nodes_circle, child);
                        let len = nodes_circle.len();
                        let mut i: usize = 0;
                        while len > 0 && i < len - 1
                            invariant
                                expandable(interface),
                                b == blossom_ptr.index,
                                i <= len,
                                interface.is_live(b as int),
                                interface.is_live(parent as int),
                                interface.node(parent as int).class is Blossom,
                                circle == interface.circle_of(parent as int),
                                nodes_circle@ == circle,
                                touching_children@ == interface.node(parent as int).class->touching_children@,
                                len == circle.len(),
                                idx < len,
                                chain_reaches(interface, parent as int, b as int),
                                parent <= b,
                                pairs_below(interface, perfect_matching@, b as int),
                                i > 0 ==> perfect_matching@.len() >= 1,
                                big && child != t ==> perfect_matching@.len() >= 1,
                                child == t && big ==> len >= 2,
                                i % 2 == 0,
                                idx as int == first_position(circle, child, 0),
                                perfect_matching@ + level_pairs(interface, b as int, parent as int, idx as int, i as int)
                                    == pm0 + level_pairs(interface, b as int, parent as int, idx as int, 0),
                            decreases len - i,
                        {
                            proof {
                                assert(interface.node_wf(parent as int));
                            }
                            let idx_1 = add_mod(idx, i + 1, len);
                            let idx_2 = add_mod(idx, i + 2, len);
                            let dual_node_ptr_1 = nodes_circle[idx_1];
                            let dual_node_ptr_2 = nodes_circle[idx_2];
                            let touching_ptr_1 = touching_children[idx_1].1;
                            let touching_ptr_2 = touching_children[idx_2].0;
                            proof {
                                assert(touching_ok(interface, parent as int, idx_1 as int));
                                assert(touching_ok(interface, parent as int, idx_2 as int));
                                assert(interface.node_consistent(parent as int));
                                assert(interface.circle_member_ok(parent as int, idx_1 as int));
                                assert(interface.circle_member_ok(parent as int, idx_2 as int));
                                assert(dual_node_ptr_1.index < parent);
                                assert(dual_node_ptr_2.index < parent);
                            }
                            let pairs = Self::expand_peer_matching(
                                interface,
                                &dual_node_ptr_1,
                                &touching_ptr_1,
                                &dual_node_ptr_2,
                                &touching_ptr_2,
                            );
                            let ghost before = perfect_matching@;
                            extend_pairs(&mut perfect_matching, pairs);
                            proof {
                                let rest = level_pairs(interface, b as int, parent as int, idx as int, i + 2);
                                assert(level_pairs(interface, b as int, parent as int, idx as int, i as int) == pairs@ + rest);
                                assert(perfect_matching@ + rest =~= before + (pairs@ + rest));
                                let n1 = dual_node_ptr_1.index as int;
                                let n2 = dual_node_ptr_2.index as int;
                                // each circle node has the blossom as its parent
                                assert(chain_reaches(interface, parent as int, parent as int));
                                assert(interface.is_live(n1) && interface.is_live(n2));
                                assert(interface.node(n1).parent_blossom == Some(DualNodePtr { index: parent }));
                                assert(chain_reaches(interface, n1, parent as int));
                                assert(chain_reaches(interface, n2, parent as int));
                                lemma_chain_trans(interface, n1, parent as int, b as int);
                                lemma_chain_trans(interface, n2, parent as int, b as int);
                                assert forall|k: int| 0 <= k < perfect_matching@.len() implies chain_reaches(
                                    interface,
                                    (#[trigger] perfect_matching@[k]).0.index as int,
                                    b as int,
                                ) && chain_reaches(interface, perfect_matching@[k].1.index as int, b as int) by {
                                    if k >= before.len() {
                                        let pair = pairs@[k - before.len()];
                                        assert(perfect_matching@[k] == pair);
                                        if chain_reaches(interface, pair.0.index as int, n1) {
                                            lemma_chain_trans(interface, pair.0.index as int, n1, b as int);
                                        } else {
                                            lemma_chain_trans(interface, pair.0.index as int, n2, b as int);
                                        }
                                        if chain_reaches(interface, pair.1.index as int, n1) {
                                            lemma_chain_trans(interface, pair.1.index as int, n1, b as int);
                                        } else {
                                            lemma_chain_trans(interface, pair.1.index as int, n2, b as int);
                                        }
                                    }
                                }
                            }
                            i = i + 2;
                        }
                        proof {
                            assert(level_pairs(interface, b as int, parent as int, idx as int, i as int) =~= Seq::empty());
                            assert(perfect_matching@ =~= pm0 + level_pairs(interface, b as int, parent as int, idx as int, 0));
                        }
                    },
                    DualNodeClass::DefectVertex { .. } => {},
                },
                None => {},
            }
            proof {
                assert(perfect_matching@ + level_chain_pairs(interface, b as int, parent as int) =~= pm0
                    + level_chain_pairs(interface, b as int, c));
            }
            child = parent;
        }
        proof {
            lemma_blossom_pairs_touch(interface, blossom_ptr.index as int, touching_ptr.index as int);
        }
        perfect_matching
    }
}


/// the pairs of expanding each matched pair in turn
pub open spec fn peer_matchings_pairs(
    interface: &DualModuleInterface,
    matchings: Seq<((DualNodePtr, DualNodeWeak), (DualNodePtr, DualNodeWeak))>,
) -> Seq<(DualNodePtr, DualNodePtr)>
    decreases matchings.len(),
{
    if matchings.len() == 0 {
        Seq::empty()
    } else {
        let m = matchings.last();
        peer_matchings_pairs(interface, matchings.drop_last()) + peer_pairs(interface, m.0.0, m.0.1, m.1.0, m.1.1)
    }
}

/// the pairs of expanding each node matched to a virtual vertex in turn
pub open spec fn virtual_matchings_pairs(
    interface: &DualModuleInterface,
    matchings: Seq<((DualNodePtr, DualNodeWeak), VertexIndex)>,
) -> Seq<(DualNodePtr, DualNodePtr)>
    decreases matchings.len(),
{
    if matchings.len() == 0 {
        Seq::empty()
    } else {
        let m = matchings.last();
        virtual_matchings_pairs(interface, matchings.drop_last()) + blossom_pairs(
            interface,
            m.0.0.index as int,
            m.0.1.index as int,
        )
    }
}

impl IntermediateMatching {
    /// every matched node is live, with its touching node below it
    pub open spec fn well_touched(&self, interface: &DualModuleInterface) -> bool {
        &&& forall|i: int|
            0 <= i < self.peer_matchings@.len() ==> {
                let ((n1, t1), (n2, t2)) = #[trigger] self.peer_matchings@[i];
                &&& interface.is_live(n1.index as int)
                &&& chain_reaches(interface, t1.index as int, n1.index as int)
                &&& interface.is_live(n2.index as int)
                &&& chain_reaches(interface, t2.index as int, n2.index as int)
            }
        &&& forall|i: int|
            0 <= i < self.virtual_matchings@.len() ==> {
                let ((n, t), _) = #[trigger] self.virtual_matchings@[i];
                &&& interface.is_live(n.index as int)
                &&& chain_reaches(interface, t.index as int, n.index as int)
            }
    }

    /// expand the intermediate matching into a perfect matching: every matched pair is expanded
    /// on both sides and its touching nodes matched; every node matched to a virtual vertex is
    /// expanded and its touching node takes the virtual vertex
    #[verifier::spinoff_prover]
    pub fn get_perfect_matching(&self, interface: &DualModuleInterface) -> (r: PerfectMatching)
        requires
            expandable(interface),
            self.well_touched(interface),
        ensures
            r.virtual_matchings@ == self.virtual_matchings@.map_values(
                |m: ((DualNodePtr, DualNodeWeak), VertexIndex)| (m.0.1, m.1),
            ),
            forall|k: int|
                0 <= k < r.peer_matchings@.len() ==> interface.is_live((#[trigger] r.peer_matchings@[k]).0.index as int)
                    && interface.is_live(r.peer_matchings@[k].1.index as int),
            r.peer_matchings@ == peer_matchings_pairs(interface, self.peer_matchings@) + virtual_matchings_pairs(
                interface,
                self.virtual_matchings@,
            ),
    {
        let mut perfect_matching = PerfectMatching::new();
        // handle peer matchings
        let mut i: usize = 0;
        while i < self.peer_matchings.len()
            invariant
                i <= self.peer_matchings@.len(),
                expandable(interface),
                self.well_touched(interface),
                perfect_matching.virtual_matchings@.len() == 0,
                forall|k: int|
                    0 <= k < perfect_matching.peer_matchings@.len() ==> interface.is_live(
                        (#[trigger] perfect_matching.peer_matchings@[k]).0.index as int,
                    ) && interface.is_live(perfect_matching.peer_matchings@[k].1.index as int),
                perfect_matching.peer_matchings@ == peer_matchings_pairs(interface, self.peer_matchings@.take(i as int)),
            decreases self.peer_matchings@.len() - i,
        {
            let ((dual_node_ptr_1, touching_ptr_1), (dual_node_ptr_2, touching_ptr_2)) = self.peer_matchings[i];
            proof {
                assert(self.peer_matchings@[i as int] == ((dual_node_ptr_1, touching_ptr_1), (
                    dual_node_ptr_2,
                    touching_ptr_2,
                )));
            }
            let pairs = Self::expand_peer_matching(
                interface,
                &dual_node_ptr_1,
                &touching_ptr_1,
                &dual_node_ptr_2,
                &touching_ptr_2,
            );
            let ghost before = perfect_matching.peer_matchings@;
            extend_pairs(&mut perfect_matching.peer_matchings, pairs);
            proof {
                assert(self.peer_matchings@.take(i + 1).drop_last() =~= self.peer_matchings@.take(i as int));
                assert(self.peer_matchings@.take(i + 1).last() == self.peer_matchings@[i as int]);
                assert forall|k: int| 0 <= k < perfect_matching.peer_matchings@.len() implies interface.is_live(
                    (#[trigger] perfect_matching.peer_matchings@[k]).0.index as int,
                ) && interface.is_live(perfect_matching.peer_matchings@[k].1.index as int) by {
                    if k >= before.len() {
                        let pair = pairs@[k - before.len()];
                        assert(perfect_matching.peer_matchings@[k] == pair);
                        if chain_reaches(interface, pair.0.index as int, dual_node_ptr_1.index as int) {
                            lemma_chain_bounds(interface, pair.0.index as int, dual_node_ptr_1.index as int);
                        } else {
                            lemma_chain_bounds(interface, pair.0.index as int, dual_node_ptr_2.index as int);
                        }
                        if chain_reaches(interface, pair.1.index as int, dual_node_ptr_1.index as int) {
                            lemma_chain_bounds(interface, pair.1.index as int, dual_node_ptr_1.index as int);
                        } else {
                            lemma_chain_bounds(interface, pair.1.index as int, dual_node_ptr_2.index as int);
                        }
                    }
                }
            }
            i = i + 1;
        }
        // handle virtual matchings
        assert(self.peer_matchings@.take(self.peer_matchings@.len() as int) =~= self.peer_matchings@);
        let ghost peers = perfect_matching.peer_matchings@;
        let mut j: usize = 0;
        while j < self.virtual_matchings.len()
            invariant
                j <= self.virtual_matchings@.len(),
                expandable(interface),
                self.well_touched(interface),
                perfect_matching.virtual_matchings@ == self.virtual_matchings@.take(j as int).map_values(
                    |m: ((DualNodePtr, DualNodeWeak), VertexIndex)| (m.0.1, m.1),
                ),
                forall|k: int|
                    0 <= k < perfect_matching.peer_matchings@.len() ==> interface.is_live(
                        (#[trigger] perfect_matching.peer_matchings@[k]).0.index as int,
                    ) && interface.is_live(perfect_matching.peer_matchings@[k].1.index as int),
                peers == peer_matchings_pairs(interface, self.peer_matchings@),
                perfect_matching.peer_matchings@ == peers + virtual_matchings_pairs(
                    interface,
                    self.virtual_matchings@.take(j as int),
                ),
            decreases self.virtual_matchings@.len() - j,
        {
            let ((dual_node_ptr, touching_ptr), virtual_vertex) = self.virtual_matchings[j];
            proof {
                assert(self.virtual_matchings@[j as int] == ((dual_node_ptr, touching_ptr), virtual_vertex));
            }
            let pairs = Self::expand_blossom(interface, &dual_node_ptr, &touching_ptr);
            let ghost before = perfect_matching.peer_matchings@;
            extend_pairs(&mut perfect_matching.peer_matchings, pairs);
            perfect_matching.virtual_matchings.push((touching_ptr, virtual_vertex));
            proof {
                assert forall|k: int| 0 <= k < perfect_matching.peer_matchings@.len() implies interface.is_live(
                    (#[trigger] perfect_matching.peer_matchings@[k]).0.index as int,
                ) && interface.is_live(perfect_matching.peer_matchings@[k].1.index as int) by {
                    if k >= before.len() {
                        let pair = pairs@[k - before.len()];
                        assert(perfect_matching.peer_matchings@[k] == pair);
                        lemma_chain_bounds(interface, pair.0.index as int, dual_node_ptr.index as int);
                        lemma_chain_bounds(interface, pair.1.index as int, dual_node_ptr.index as int);
                    }
                }
                assert(self.virtual_matchings@.take(j + 1).drop_last() =~= self.virtual_matchings@.take(j as int));
                assert(self.virtual_matchings@.take(j + 1).last() == self.virtual_matchings@[j as int]);
                assert(perfect_matching.peer_matchings@ =~= peers + virtual_matchings_pairs(
                    interface,
                    self.virtual_matchings@.take(j + 1),
                ));
                assert(perfect_matching.virtual_matchings@ =~= self.virtual_matchings@.take(j + 1).map_values(
                    |m: ((DualNodePtr, DualNodeWeak), VertexIndex)| (m.0.1, m.1),
                ));
            }
            j = j + 1;
        }
        proof {
            assert(self.virtual_matchings@.take(self.virtual_matchings@.len() as int) =~= self.virtual_matchings@);
        }
        perfect_matching
    }
}


/// a pair of vertices with the lower one first
pub open spec fn ordered(a: VertexIndex, b: VertexIndex) -> (VertexIndex, VertexIndex) {
    if a < b {
        (a, b)
    } else {
        (b, a)
    }
}

/// the edge of each pair of vertices: the last edge of the list joining them
pub open spec fn pair_index(ends: Seq<(VertexIndex, VertexIndex)>) -> Map<(VertexIndex, VertexIndex), EdgeIndex>
    decreases ends.len(),
{
    if ends.len() == 0 {
        Map::empty()
    } else {
        pair_index(ends.drop_last()).insert(ordered(ends.last().0, ends.last().1), (ends.len() - 1) as usize)
    }
}

/// every edge of the list has its pair in the index, and the index only names edges of the list
proof fn lemma_pair_index(ends: Seq<(VertexIndex, VertexIndex)>)
    requires
        ends.len() <= usize::MAX,
    ensures
        forall|e: int| 0 <= e < ends.len() ==> pair_index(ends).contains_key(ordered(#[trigger] ends[e].0, ends[e].1)),
        forall|k: (VertexIndex, VertexIndex)| #[trigger] pair_index(ends).contains_key(k) ==> pair_index(ends)[k] < ends.len(),
    decreases ends.len(),
{
    if ends.len() > 0 {
        lemma_pair_index(ends.drop_last());
        assert forall|e: int| 0 <= e < ends.len() implies pair_index(ends).contains_key(ordered(#[trigger] ends[e].0, ends[e].1)) by {
            if e < ends.len() - 1 {
                assert(ends.drop_last()[e] == ends[e]);
            }
        }
        assert forall|k: (VertexIndex, VertexIndex)| #[trigger] pair_index(ends).contains_key(k) implies pair_index(ends)[k]
            < ends.len() by {
            if k != ordered(ends.last().0, ends.last().1) {
                assert(pair_index(ends.drop_last()).contains_key(k));
            }
        }
    }
}

/// toggle the membership of each edge of the list, in turn
pub open spec fn toggle_all(s: Set<EdgeIndex>, es: Seq<EdgeIndex>) -> Set<EdgeIndex>
    decreases es.len(),
{
    if es.len() == 0 {
        s
    } else {
        let t = toggle_all(s, es.drop_last());
        if t.contains(es.last()) {
            t.remove(es.last())
        } else {
            t.insert(es.last())
        }
    }
}


/// the number of times `x` occurs in `es`
pub open spec fn occurrences(es: Seq<EdgeIndex>, x: EdgeIndex) -> nat
    decreases es.len(),
{
    if es.len() == 0 {
        0
    } else {
        occurrences(es.drop_last(), x) + if es.last() == x {
            1nat
        } else {
            0nat
        }
    }
}

/// an edge is in the toggled set when it was in the set and occurs an even number of times, or
/// was not and occurs an odd number of times
proof fn lemma_toggle_membership(s: Set<EdgeIndex>, es: Seq<EdgeIndex>, x: EdgeIndex)
    ensures
        toggle_all(s, es).contains(x) == (s.contains(x) != (occurrences(es, x) % 2 == 1)),
    decreases es.len(),
{
    if es.len() > 0 {
        lemma_toggle_membership(s, es.drop_last(), x);
    }
}

/// Toggling the same edges twice gives the set back: an edge of a matching added twice cancels out.
pub proof fn lemma_toggle_twice(s: Set<EdgeIndex>, es: Seq<EdgeIndex>)
    ensures
        toggle_all(toggle_all(s, es), es) == s,
{
    assert forall|x: EdgeIndex| toggle_all(toggle_all(s, es), es).contains(x) == s.contains(x) by {
        lemma_toggle_membership(s, es, x);
        lemma_toggle_membership(toggle_all(s, es), es, x);
    }
    assert(toggle_all(toggle_all(s, es), es) =~= s);
}

/// the edges along a weighted path from `start`, each found by its pair of vertices
pub open spec fn path_edges(
    pairs: Map<(VertexIndex, VertexIndex), EdgeIndex>,
    start: VertexIndex,
    path: Seq<(VertexIndex, Weight)>,
) -> Seq<EdgeIndex> {
    Seq::new(path.len(), |i: int| pairs[ordered(CompleteGraph::path_prev(start, path, i), path[i].0)])
}

/// Adding the same pair twice cancels out wherever the two vertices are joined by one shortest path
/// only: both additions toggle the edges of that path.
pub proof fn lemma_add_matching_twice(
    b0: SubGraphBuilder,
    b1: SubGraphBuilder,
    b2: SubGraphBuilder,
    u: VertexIndex,
    v: VertexIndex,
)
    requires
        b0.wf(),
        b1.wf(),
        u < b0.vertex_num,
        b1.matching_added(&b0, u, v),
        b1.same_graph(&b0),
        b2.matching_added(&b1, u, v),
        b0.shortest_path_unique(u, v),
    ensures
        b2.subgraph@ == b0.subgraph@,
{
    let p = choose|path: Seq<(VertexIndex, Weight)>|
        {
            &&& #[trigger] b0.complete_graph.is_weighted_path(u, path)
            &&& path.len() >= 1
            &&& path.last().0 == v
            &&& b0.complete_graph.paths_at_least(u, v, path_weight(path))
            &&& b1.subgraph@ == toggle_all(b0.subgraph@, path_edges(b0.pair_map(), u, path))
        };
    let q = choose|path: Seq<(VertexIndex, Weight)>|
        {
            &&& #[trigger] b1.complete_graph.is_weighted_path(u, path)
            &&& path.len() >= 1
            &&& path.last().0 == v
            &&& b1.complete_graph.paths_at_least(u, v, path_weight(path))
            &&& b2.subgraph@ == toggle_all(b1.subgraph@, path_edges(b1.pair_map(), u, path))
        };
    b1.complete_graph.lemma_weighted_path_transfer(&b0.complete_graph, u, q);
    b0.complete_graph.lemma_paths_at_least_transfer(&b1.complete_graph, u, v, path_weight(q));
    assert(path_edges(b0.pair_map(), u, p) == path_edges(b0.pair_map(), u, q));
    lemma_toggle_twice(b0.subgraph@, path_edges(b0.pair_map(), u, p));
}

/// the sum of the weights of the listed edges
pub open spec fn weight_sum(edges: Seq<(VertexIndex, VertexIndex, Weight)>, es: Seq<EdgeIndex>) -> int
    decreases es.len(),
{
    if es.len() == 0 {
        0
    } else {
        weight_sum(edges, es.drop_last()) + edges[es.last() as int].2
    }
}


/// one more step of the bound still fits
proof fn lemma_mul_step(i: int, n: int)
    requires
        0 <= i < n,
    ensures
        (i + 1) * MAX_EDGE_WEIGHT <= n * MAX_EDGE_WEIGHT,
{
    assert((i + 1) * MAX_EDGE_WEIGHT <= n * MAX_EDGE_WEIGHT) by (nonlinear_arith)
        requires
            0 <= i < n,
            MAX_EDGE_WEIGHT > 0,
    ;
}

/// builds the subgraph of the decoding graph that realizes a matching: the edges on the shortest
/// path between the two vertices of each matched pair, an edge used twice cancelling out
pub struct SubGraphBuilder {
    /// number of vertices
    pub vertex_num: VertexNum,
    /// for each vertex, the edge to each vertex of higher index
    pub vertex_pair_edges: Vec<BTreeMap<VertexIndex, EdgeIndex>>,
    /// an instance of complete graph to compute minimum-weight path between any pair of vertices
    pub complete_graph: CompleteGraph,
    /// current subgraph, assuming edges are not very much
    pub subgraph: BTreeSet<EdgeIndex>,
}

impl SubGraphBuilder {
    /// the edge of each pair of vertices
    pub open spec fn pair_map(&self) -> Map<(VertexIndex, VertexIndex), EdgeIndex> {
        pair_index(endpoints(self.complete_graph.weighted_edges@))
    }

    /// the lookup table holds the pairs of the graph, and the subgraph holds edges of the graph
    pub open spec fn wf(&self) -> bool {
        &&& self.complete_graph.wf()
        &&& self.complete_graph.keys_are_edges()
        &&& self.complete_graph.vertex_num == self.vertex_num
        &&& self.vertex_pair_edges@.len() == self.vertex_num
        &&& forall|a: int, b: VertexIndex|
            0 <= a < self.vertex_num ==> (#[trigger] self.vertex_pair_edges@[a]@.contains_key(b)
                <==> self.pair_map().contains_key((a as VertexIndex, b)))
        &&& forall|a: int, b: VertexIndex|
            0 <= a < self.vertex_num && #[trigger] self.vertex_pair_edges@[a]@.contains_key(b)
                ==> self.vertex_pair_edges@[a]@[b] == self.pair_map()[(a as VertexIndex, b)]
        &&& forall|e: EdgeIndex| #[trigger] self.subgraph@.contains(e) ==> e < self.complete_graph.weighted_edges@.len()
    }

    pub fn new(initializer: &SolverInitializer) -> (r: Self)
        requires
            initializer.vertex_num < MAX_VERTEX_NUM,
            edges_valid(initializer.vertex_num, initializer.weighted_edges@),
        ensures
            r.wf(),
            r.vertex_num == initializer.vertex_num,
            r.complete_graph.weighted_edges@ == initializer.weighted_edges@,
            r.complete_graph.edge_modifier.modified@.len() == 0,
            r.subgraph@.len() == 0,
    {
        broadcast use vstd::std_specs::btree::group_btree_axioms;

        let n = initializer.vertex_num;
        let ghost ends = endpoints(initializer.weighted_edges@);
        let mut vertex_pair_edges: Vec<BTreeMap<VertexIndex, EdgeIndex>> = Vec::new();
        let mut v: usize = 0;
        while v < n
            invariant
                v <= n,
                vertex_pair_edges@.len() == v,
                forall|a: int| 0 <= a < v ==> (#[trigger] vertex_pair_edges@[a])@ == Map::<VertexIndex, EdgeIndex>::empty(),
            decreases n - v,
        {
            vertex_pair_edges.push(BTreeMap::new());
            v = v + 1;
        }
        let mut e: usize = 0;
        while e < initializer.weighted_edges.len()
            invariant
                e <= initializer.weighted_edges@.len(),
                n == initializer.vertex_num,
                ends == endpoints(initializer.weighted_edges@),
                edges_valid(n, initializer.weighted_edges@),
                vertex_pair_edges@.len() == n,
                forall|a: int, b: VertexIndex|
                    0 <= a < n ==> (#[trigger] vertex_pair_edges@[a]@.contains_key(b) <==> pair_index(
                        ends.take(e as int),
                    ).contains_key((a as VertexIndex, b))),
                forall|a: int, b: VertexIndex|
                    0 <= a < n && #[trigger] vertex_pair_edges@[a]@.contains_key(b) ==> vertex_pair_edges@[a]@[b]
                        == pair_index(ends.take(e as int))[(a as VertexIndex, b)],
            decreases initializer.weighted_edges@.len() - e,
        {
            let (i, j, _) = initializer.weighted_edges[e];
            proof {
                assert(initializer.weighted_edges@[e as int].0 == i);
            }
            let (a, b) = if i < j {
                (i, j)
            } else {
                (j, i)
            };
            let ghost old_maps = vertex_pair_edges@;
            let mut map = vertex_pair_edges.remove(a);
            map.insert(b, e);
            vertex_pair_edges.insert(a, map);
            proof {
                let next = ends.take(e + 1);
                assert(next.drop_last() =~= ends.take(e as int));
                assert(next.last() == (i, j));
                assert forall|x: int, y: VertexIndex| 0 <= x < n implies (#[trigger] vertex_pair_edges@[x]@.contains_key(y)
                    <==> pair_index(next).contains_key((x as VertexIndex, y))) && (vertex_pair_edges@[x]@.contains_key(y)
                    ==> vertex_pair_edges@[x]@[y] == pair_index(next)[(x as VertexIndex, y)]) by {
                    if x != a {
                        assert(vertex_pair_edges@[x] == old_maps[x]);
                    }
                }
            }
            e = e + 1;
        }
        proof {
            assert(ends.take(ends.len() as int) =~= ends);
        }
        let complete_graph = CompleteGraph::new(n, &initializer.weighted_edges);
        SubGraphBuilder { vertex_num: n, vertex_pair_edges, complete_graph, subgraph: BTreeSet::new() }
    }

    /// forget the subgraph and bring back the weights of the graph
    pub fn clear(&mut self)
        requires
            old(self).wf(),
        ensures
            final(self).wf(),
            final(self).subgraph@.len() == 0,
            final(self).complete_graph.edge_modifier.modified@.len() == 0,
            final(self).complete_graph.weighted_edges@ == crate::complete_graph::restore_modifier(
                old(self).complete_graph.weighted_edges@,
                old(self).complete_graph.edge_modifier.modified@,
            ),
    {
        broadcast use vstd::std_specs::btree::group_btree_axioms;

        self.subgraph.clear();
        self.complete_graph.reset();
        proof {
            assert(endpoints(self.complete_graph.weighted_edges@).len() == self.complete_graph.weighted_edges@.len());
            assert(endpoints(old(self).complete_graph.weighted_edges@).len() == old(self).complete_graph.weighted_edges@.len());
        }
    }

    /// temporarily set some edges to 0 weight, and when it resets, those edges will be reverted
    /// back to the original weight
    pub fn load_erasures(&mut self, erasures: &Vec<EdgeIndex>)
        requires
            old(self).wf(),
            old(self).complete_graph.edge_modifier.modified@.len() == 0,
            forall|k: int| 0 <= k < erasures@.len() ==> #[trigger] erasures@[k] < old(self).complete_graph.weighted_edges@.len(),
        ensures
            final(self).wf(),
            final(self).subgraph@ == old(self).subgraph@,
            final(self).complete_graph.weighted_edges@ == crate::complete_graph::apply_modifier(
                old(self).complete_graph.weighted_edges@,
                erasures@.map_values(|e: EdgeIndex| (e, 0 as Weight)),
            ),
    {
        self.complete_graph.load_erasures(erasures);
        proof {
            assert(endpoints(self.complete_graph.weighted_edges@).len() == self.complete_graph.weighted_edges@.len());
            assert(endpoints(old(self).complete_graph.weighted_edges@).len() == old(self).complete_graph.weighted_edges@.len());
        }
    }

    /// set dynamic weights on some edges, reverted when it resets
    pub fn load_dynamic_weights(&mut self, dynamic_weights: &Vec<(EdgeIndex, Weight)>)
        requires
            old(self).wf(),
            old(self).complete_graph.edge_modifier.modified@.len() == 0,
            crate::complete_graph::modifier_valid(old(self).complete_graph.weighted_edges@.len(), dynamic_weights@),
        ensures
            final(self).wf(),
            final(self).subgraph@ == old(self).subgraph@,
            final(self).complete_graph.weighted_edges@ == crate::complete_graph::apply_modifier(
                old(self).complete_graph.weighted_edges@,
                dynamic_weights@,
            ),
    {
        self.complete_graph.load_dynamic_weights(dynamic_weights);
        proof {
            assert(endpoints(self.complete_graph.weighted_edges@).len() == self.complete_graph.weighted_edges@.len());
            assert(endpoints(old(self).complete_graph.weighted_edges@).len() == old(self).complete_graph.weighted_edges@.len());
        }
    }

    /// the subgraph becomes the given edges
    pub fn load_subgraph(&mut self, subgraph: &Vec<EdgeIndex>)
        requires
            old(self).wf(),
            forall|k: int| 0 <= k < subgraph@.len() ==> #[trigger] subgraph@[k] < old(self).complete_graph.weighted_edges@.len(),
        ensures
            final(self).wf(),
            final(self).subgraph@ == subgraph@.to_set(),
            final(self).complete_graph == old(self).complete_graph,
    {
        broadcast use vstd::std_specs::btree::group_btree_axioms;

        self.subgraph.clear();
        let mut k: usize = 0;
        while k < subgraph.len()
            invariant
                k <= subgraph@.len(),
                self.wf() || k == 0,
                self.complete_graph == old(self).complete_graph,
                self.vertex_pair_edges == old(self).vertex_pair_edges,
                self.vertex_num == old(self).vertex_num,
                old(self).wf(),
                forall|j: int| 0 <= j < subgraph@.len() ==> #[trigger] subgraph@[j] < old(self).complete_graph.weighted_edges@.len(),
                self.subgraph@ == subgraph@.take(k as int).to_set(),
            decreases subgraph@.len() - k,
        {
            self.subgraph.insert(subgraph[k]);
            proof {
                assert(subgraph@.take(k + 1) =~= subgraph@.take(k as int).push(subgraph@[k as int]));
                subgraph@.take(k as int).lemma_push_to_set_commute(subgraph@[k as int]);
            }
            k = k + 1;
        }
        proof {
            assert(subgraph@.take(subgraph@.len() as int) =~= subgraph@);
            assert forall|e: EdgeIndex| #[trigger] self.subgraph@.contains(e) implies e < self.complete_graph.weighted_edges@.len() by {
                assert(subgraph@.to_set().contains(e));
                let j = choose|j: int| 0 <= j < subgraph@.len() && subgraph@[j] == e;
                assert(subgraph@[j] < old(self).complete_graph.weighted_edges@.len());
            }
        }
    }
}


/// toggling a concatenation toggles one part after the other
proof fn lemma_toggle_concat(s: Set<EdgeIndex>, a: Seq<EdgeIndex>, b: Seq<EdgeIndex>)
    ensures
        toggle_all(s, a + b) == toggle_all(toggle_all(s, a), b),
    decreases b.len(),
{
    if b.len() == 0 {
        assert(a + b =~= a);
    } else {
        assert((a + b).drop_last() =~= a + b.drop_last());
        assert((a + b).last() == b.last());
        lemma_toggle_concat(s, a, b.drop_last());
    }
}

/// the vertices of each matched pair of a perfect matching, the peers first
pub open spec fn matching_ends(interface: &DualModuleInterface, matching: &PerfectMatching) -> Seq<(VertexIndex, VertexIndex)> {
    matching.peer_matchings@.map_values(
        |m: (DualNodePtr, DualNodePtr)| (defect_of(interface, m.0), defect_of(interface, m.1)),
    ) + matching.virtual_matchings@.map_values(|m: (DualNodePtr, VertexIndex)| (defect_of(interface, m.0), m.1))
}

/// the edges along each path in turn, each path starting at the first vertex of its pair
pub open spec fn all_path_edges(
    pairs: Map<(VertexIndex, VertexIndex), EdgeIndex>,
    ends: Seq<(VertexIndex, VertexIndex)>,
    paths: Seq<Seq<(VertexIndex, Weight)>>,
) -> Seq<EdgeIndex>
    decreases ends.len(),
{
    if ends.len() == 0 || paths.len() == 0 {
        Seq::empty()
    } else {
        all_path_edges(pairs, ends.drop_last(), paths.drop_last()) + path_edges(pairs, ends.last().0, paths.last())
    }
}

/// `paths` holds a path of the graph for each pair of `ends`, from its first vertex to its second
pub open spec fn paths_join(
    complete_graph: &CompleteGraph,
    ends: Seq<(VertexIndex, VertexIndex)>,
    paths: Seq<Seq<(VertexIndex, Weight)>>,
) -> bool {
    &&& paths.len() == ends.len()
    &&& forall|k: int|
        0 <= k < ends.len() ==> {
            &&& complete_graph.is_weighted_path(ends[k].0, #[trigger] paths[k])
            &&& paths[k].len() >= 1
            &&& paths[k].last().0 == ends[k].1
        }
}

impl SubGraphBuilder {
    /// the pairs of a matching can be joined: distinct vertices of the graph joined by some walk
    pub open spec fn ends_joinable(&self, ends: Seq<(VertexIndex, VertexIndex)>) -> bool {
        forall|k: int|
            0 <= k < ends.len() ==> {
                &&& (#[trigger] ends[k]).0 < self.vertex_num
                &&& ends[k].1 < self.vertex_num
                &&& ends[k].0 != ends[k].1
                &&& self.complete_graph.reachable(ends[k].0, ends[k].1)
            }
    }

    /// toggle the edges along a shortest path between the two vertices, returning the path
    fn toggle_path(&mut self, vertex_1: VertexIndex, vertex_2: VertexIndex) -> (path: Ghost<Seq<(VertexIndex, Weight)>>)
        requires
            old(self).wf(),
            vertex_1 < old(self).vertex_num,
            vertex_2 < old(self).vertex_num,
            vertex_1 != vertex_2,
            old(self).complete_graph.reachable(vertex_1, vertex_2),
        ensures
            final(self).wf(),
            old(self).complete_graph.is_weighted_path(vertex_1, path@),
            path@.len() >= 1,
            path@.last().0 == vertex_2,
            old(self).complete_graph.paths_at_least(vertex_1, vertex_2, path_weight(path@)),
            final(self).subgraph@ == toggle_all(old(self).subgraph@, path_edges(old(self).pair_map(), vertex_1, path@)),
            final(self).vertex_num == old(self).vertex_num,
            final(self).vertex_pair_edges == old(self).vertex_pair_edges,
            final(self).complete_graph.weighted_edges@ == old(self).complete_graph.weighted_edges@,
            final(self).complete_graph.edge_modifier == old(self).complete_graph.edge_modifier,
            final(self).complete_graph.vertices@.len() == old(self).complete_graph.vertices@.len(),
            forall|v: int|
                0 <= v < final(self).complete_graph.vertices@.len() ==> (#[trigger] final(self).complete_graph.vertices@[v]).edges == old(self).complete_graph.vertices@[v].edges,
    {
        broadcast use vstd::std_specs::btree::group_btree_axioms;

        let ghost start = *self;
        let ghost pm = start.pair_map();
        let (path, _) = self.complete_graph.get_path(vertex_1, vertex_2);
        let ghost edges = path_edges(pm, vertex_1, path@);
        let edge_count = self.complete_graph.weighted_edges.len();
        proof {
            assert(endpoints(start.complete_graph.weighted_edges@).len() == edge_count);
            lemma_pair_index(endpoints(start.complete_graph.weighted_edges@));
        }
        let mut a = vertex_1;
        let mut k: usize = 0;
        while k < path.len()
            invariant
                k <= path@.len(),
                self.wf(),
                start.wf(),
                pm == start.pair_map(),
                pm == self.pair_map(),
                edges == path_edges(pm, vertex_1, path@),
                start.complete_graph.is_weighted_path(vertex_1, path@),
                a == CompleteGraph::path_prev(vertex_1, path@, k as int),
                a < self.vertex_num,
                self.vertex_num == start.vertex_num,
                self.vertex_pair_edges == start.vertex_pair_edges,
                self.complete_graph.weighted_edges@ == start.complete_graph.weighted_edges@,
                self.complete_graph.edge_modifier == start.complete_graph.edge_modifier,
                self.complete_graph.vertices@.len() == start.complete_graph.vertices@.len(),
                forall|v: int|
                    0 <= v < self.complete_graph.vertices@.len() ==> (#[trigger] self.complete_graph.vertices@[v]).edges
                        == start.complete_graph.vertices@[v].edges,
                forall|e: int|
                    0 <= e < endpoints(start.complete_graph.weighted_edges@).len() ==> pm.contains_key(
                        ordered(#[trigger] endpoints(start.complete_graph.weighted_edges@)[e].0, endpoints(start.complete_graph.weighted_edges@)[e].1),
                    ),
                forall|x: (VertexIndex, VertexIndex)| #[trigger] pm.contains_key(x) ==> pm[x] < endpoints(
                    start.complete_graph.weighted_edges@,
                ).len(),
                self.subgraph@ == toggle_all(start.subgraph@, edges.take(k as int)),
            decreases path@.len() - k,
        {
            let b = path[k].0;
            proof {
                assert(start.complete_graph.path_step(vertex_1, path@, k as int));
                assert(start.complete_graph.vertex_wf(a as int));
                assert(start.complete_graph.vertices@[a as int].edges@.contains_key(b));
                let e = choose|e: int| 0 <= e < start.complete_graph.weighted_edges@.len() && joins(start.complete_graph.weighted_edges@, e, a as int, b as int);
                let w = start.complete_graph.weighted_edges@;
                assert(endpoints(w)[e] == (w[e].0, w[e].1));
                assert(pm.contains_key(ordered(endpoints(w)[e].0, endpoints(w)[e].1)));
                assert(ordered(endpoints(w)[e].0, endpoints(w)[e].1) == ordered(a, b));
                assert(pm.contains_key(ordered(a, b)));
            }
            let (x, y) = if a < b {
                (a, b)
            } else {
                (b, a)
            };
            let edge_index = match self.vertex_pair_edges[x].get(&y) {
                Some(e) => *e,
                None => 0,
            };
            proof {
                assert(self.vertex_pair_edges@[x as int]@.contains_key(y));
                assert(edge_index == pm[(x, y)]);
                assert(edges[k as int] == edge_index);
                assert(edges.take(k + 1) =~= edges.take(k as int).push(edge_index));
                assert(edges.take(k + 1).drop_last() =~= edges.take(k as int));
            }
            if self.subgraph.contains(&edge_index) {
                self.subgraph.remove(&edge_index);
            } else {
                self.subgraph.insert(edge_index);
            }
            a = b;
            k = k + 1;
        }
        proof {
            assert(edges.take(path@.len() as int) =~= edges);
        }
        Ghost(path@)
    }

    /// the subgraph here is the one of `before` with the edges of a shortest path of the graph of
    /// `before` from `u` to `v` toggled
    pub open spec fn matching_added(&self, before: &Self, u: VertexIndex, v: VertexIndex) -> bool {
        exists|path: Seq<(VertexIndex, Weight)>|
            {
                &&& #[trigger] before.complete_graph.is_weighted_path(u, path)
                &&& path.len() >= 1
                &&& path.last().0 == v
                &&& before.complete_graph.paths_at_least(u, v, path_weight(path))
                &&& self.subgraph@ == toggle_all(before.subgraph@, path_edges(before.pair_map(), u, path))
            }
    }

    /// the graph here is the one of `other`: the same edges, and every vertex with the same
    /// neighbours at the same weights
    pub open spec fn same_graph(&self, other: &Self) -> bool {
        &&& self.complete_graph.weighted_edges@ == other.complete_graph.weighted_edges@
        &&& self.complete_graph.vertices@.len() == other.complete_graph.vertices@.len()
        &&& forall|x: int|
            0 <= x < self.complete_graph.vertices@.len() ==> #[trigger] self.complete_graph.vertices@[x].edges
                == other.complete_graph.vertices@[x].edges
    }

    /// every shortest path from `u` to `v` goes over the same edges
    pub open spec fn shortest_path_unique(&self, u: VertexIndex, v: VertexIndex) -> bool {
        forall|p: Seq<(VertexIndex, Weight)>, q: Seq<(VertexIndex, Weight)>|
            #![trigger self.complete_graph.is_weighted_path(u, p), self.complete_graph.is_weighted_path(u, q)]
            self.complete_graph.is_weighted_path(u, p) && p.len() >= 1 && p.last().0 == v
                && self.complete_graph.paths_at_least(u, v, path_weight(p)) && self.complete_graph.is_weighted_path(
                u,
                q,
            ) && q.len() >= 1 && q.last().0 == v && self.complete_graph.paths_at_least(u, v, path_weight(q))
                ==> path_edges(self.pair_map(), u, p) == path_edges(self.pair_map(), u, q)
    }

    /// add a matching: the edges on a shortest path between the two vertices are toggled in the
    /// subgraph, so adding the same pair twice cancels out
    pub fn add_matching(&mut self, vertex_1: VertexIndex, vertex_2: VertexIndex)
        requires
            old(self).wf(),
            vertex_1 < old(self).vertex_num,
            vertex_2 < old(self).vertex_num,
            vertex_1 != vertex_2,
            old(self).complete_graph.reachable(vertex_1, vertex_2),
        ensures
            final(self).wf(),
            final(self).matching_added(old(self), vertex_1, vertex_2),
            final(self).complete_graph.weighted_edges@ == old(self).complete_graph.weighted_edges@,
            final(self).same_graph(old(self)),
    {
        let path = self.toggle_path(vertex_1, vertex_2);
        proof {
            assert(old(self).complete_graph.is_weighted_path(vertex_1, path@));
            assert(self.matching_added(old(self), vertex_1, vertex_2));
        }
    }

    /// the subgraph of a perfect matching: the edges on a shortest path between the vertices of each
    /// matched pair, toggled in turn from an empty subgraph
    pub fn load_perfect_matching(&mut self, interface: &DualModuleInterface, perfect_matching: &PerfectMatching)
        requires
            old(self).wf(),
            interface.nodes_length <= interface.nodes@.len(),
            perfect_matching.on_defects(interface),
            old(self).ends_joinable(matching_ends(interface, perfect_matching)),
        ensures
            final(self).wf(),
            final(self).complete_graph.weighted_edges@ == old(self).complete_graph.weighted_edges@,
            exists|paths: Seq<Seq<(VertexIndex, Weight)>>|
                {
                    &&& paths_join(&old(self).complete_graph, matching_ends(interface, perfect_matching), paths)
                    &&& final(self).subgraph@ == toggle_all(
                        Set::empty(),
                        all_path_edges(old(self).pair_map(), matching_ends(interface, perfect_matching), paths),
                    )
                },
    {
        broadcast use vstd::std_specs::btree::group_btree_axioms;

        let ghost start = *self;
        let ghost ends = matching_ends(interface, perfect_matching);
        let ghost np = perfect_matching.peer_matchings@.len();
        self.subgraph.clear();
        let ghost mut paths: Seq<Seq<(VertexIndex, Weight)>> = Seq::empty();
        let mut i: usize = 0;
        while i < perfect_matching.peer_matchings.len()
            invariant
                i <= perfect_matching.peer_matchings@.len(),
                np == perfect_matching.peer_matchings@.len(),
                self.wf(),
                start.wf(),
                interface.nodes_length <= interface.nodes@.len(),
                perfect_matching.on_defects(interface),
                ends == matching_ends(interface, perfect_matching),
                start.ends_joinable(ends),
                self.vertex_num == start.vertex_num,
                self.pair_map() == start.pair_map(),
                self.complete_graph.weighted_edges@ == start.complete_graph.weighted_edges@,
                self.complete_graph.vertices@.len() == start.complete_graph.vertices@.len(),
                forall|v: int|
                    0 <= v < self.complete_graph.vertices@.len() ==> (#[trigger] self.complete_graph.vertices@[v]).edges
                        == start.complete_graph.vertices@[v].edges,
                paths_join(&start.complete_graph, ends.take(i as int), paths),
                self.subgraph@ == toggle_all(Set::empty(), all_path_edges(start.pair_map(), ends.take(i as int), paths)),
            decreases perfect_matching.peer_matchings@.len() - i,
        {
            let (ptr_1, ptr_2) = perfect_matching.peer_matchings[i];
            proof {
                assert(perfect_matching.peer_matchings@[i as int] == (ptr_1, ptr_2));
            }
            let a_vid = defect_vertex_of(interface, &ptr_1);
            let b_vid = defect_vertex_of(interface, &ptr_2);
            proof {
                assert(ends[i as int] == (a_vid, b_vid));
                Self::lemma_reachable_same(&start.complete_graph, &self.complete_graph, a_vid, b_vid);
            }
            let ghost before = *self;
            let path = self.toggle_path(a_vid, b_vid);
            proof {
                Self::lemma_path_same(&before.complete_graph, &start.complete_graph, a_vid, path@);
                let old_paths = paths;
                paths = paths.push(path@);
                let next = ends.take(i + 1);
                assert(next.drop_last() =~= ends.take(i as int));
                assert(next.last() == (a_vid, b_vid));
                assert(paths.drop_last() =~= old_paths);
                lemma_toggle_concat(
                    Set::empty(),
                    all_path_edges(start.pair_map(), ends.take(i as int), old_paths),
                    path_edges(start.pair_map(), a_vid, path@),
                );
                assert forall|k: int| 0 <= k < next.len() implies {
                    &&& start.complete_graph.is_weighted_path(next[k].0, #[trigger] paths[k])
                    &&& paths[k].len() >= 1
                    &&& paths[k].last().0 == next[k].1
                } by {
                    if k < i {
                        assert(paths[k] == old_paths[k]);
                        assert(next[k] == ends.take(i as int)[k]);
                    }
                }
            }
            i = i + 1;
        }
        let mut j: usize = 0;
        while j < perfect_matching.virtual_matchings.len()
            invariant
                j <= perfect_matching.virtual_matchings@.len(),
                np == perfect_matching.peer_matchings@.len(),
                self.wf(),
                start.wf(),
                interface.nodes_length <= interface.nodes@.len(),
                perfect_matching.on_defects(interface),
                ends == matching_ends(interface, perfect_matching),
                start.ends_joinable(ends),
                self.vertex_num == start.vertex_num,
                self.pair_map() == start.pair_map(),
                self.complete_graph.weighted_edges@ == start.complete_graph.weighted_edges@,
                self.complete_graph.vertices@.len() == start.complete_graph.vertices@.len(),
                forall|v: int|
                    0 <= v < self.complete_graph.vertices@.len() ==> (#[trigger] self.complete_graph.vertices@[v]).edges
                        == start.complete_graph.vertices@[v].edges,
                paths_join(&start.complete_graph, ends.take(np + j), paths),
                self.subgraph@ == toggle_all(Set::empty(), all_path_edges(start.pair_map(), ends.take(np + j), paths)),
            decreases perfect_matching.virtual_matchings@.len() - j,
        {
            let (ptr, virtual_vertex) = perfect_matching.virtual_matchings[j];
            proof {
                assert(perfect_matching.virtual_matchings@[j as int] == (ptr, virtual_vertex));
            }
            let a_vid = defect_vertex_of(interface, &ptr);
            proof {
                assert(ends[np + j] == (a_vid, virtual_vertex));
                Self::lemma_reachable_same(&start.complete_graph, &self.complete_graph, a_vid, virtual_vertex);
            }
            let ghost before = *self;
            let path = self.toggle_path(a_vid, virtual_vertex);
            proof {
                Self::lemma_path_same(&before.complete_graph, &start.complete_graph, a_vid, path@);
                let old_paths = paths;
                paths = paths.push(path@);
                let next = ends.take(np + j + 1);
                assert(next.drop_last() =~= ends.take(np + j));
                assert(next.last() == (a_vid, virtual_vertex));
                assert(paths.drop_last() =~= old_paths);
                lemma_toggle_concat(
                    Set::empty(),
                    all_path_edges(start.pair_map(), ends.take(np + j), old_paths),
                    path_edges(start.pair_map(), a_vid, path@),
                );
                assert forall|k: int| 0 <= k < next.len() implies {
                    &&& start.complete_graph.is_weighted_path(next[k].0, #[trigger] paths[k])
                    &&& paths[k].len() >= 1
                    &&& paths[k].last().0 == next[k].1
                } by {
                    if k < np + j {
                        assert(paths[k] == old_paths[k]);
                        assert(next[k] == ends.take(np + j)[k]);
                    }
                }
            }
            j = j + 1;
        }
        proof {
            assert(ends.take(ends.len() as int) =~= ends);
        }
    }

    /// a walk from a vertex of the graph stays in the graph
    proof fn lemma_walk_in_range(a: &CompleteGraph, walk: Seq<VertexIndex>, i: int)
        requires
            a.wf(),
            a.is_walk(walk),
            walk[0] < a.vertex_num,
            0 <= i < walk.len(),
        ensures
            walk[i] < a.vertex_num,
        decreases i,
    {
        if i > 0 {
            Self::lemma_walk_in_range(a, walk, i - 1);
            assert(a.walk_step(walk, i - 1));
            assert(a.vertex_wf(walk[i - 1] as int));
        }
    }

    /// a weighted path from a vertex of the graph stays in the graph
    proof fn lemma_path_in_range(a: &CompleteGraph, start: VertexIndex, path: Seq<(VertexIndex, Weight)>, i: int)
        requires
            a.wf(),
            a.is_weighted_path(start, path),
            start < a.vertex_num,
            0 <= i < path.len(),
        ensures
            CompleteGraph::path_prev(start, path, i) < a.vertex_num,
            path[i].0 < a.vertex_num,
        decreases i,
    {
        if i > 0 {
            Self::lemma_path_in_range(a, start, path, i - 1);
        }
        assert(a.path_step(start, path, i));
        assert(a.vertex_wf(CompleteGraph::path_prev(start, path, i) as int));
    }

    /// the same adjacency gives the same walks
    proof fn lemma_reachable_same(a: &CompleteGraph, b: &CompleteGraph, v: VertexIndex, u: VertexIndex)
        requires
            a.reachable(v, u),
            a.wf(),
            v < a.vertex_num,
            b.vertices@.len() == a.vertices@.len(),
            forall|x: int| 0 <= x < b.vertices@.len() ==> (#[trigger] b.vertices@[x]).edges == a.vertices@[x].edges,
        ensures
            b.reachable(v, u),
    {
        let walk = choose|walk: Seq<VertexIndex>| #[trigger] a.is_walk(walk) && walk[0] == v && walk.last() == u;
        assert forall|i: int| 0 <= i < walk.len() - 1 implies #[trigger] b.walk_step(walk, i) by {
            assert(a.walk_step(walk, i));
            Self::lemma_walk_in_range(a, walk, i);
            if 0 <= walk[i] < b.vertices@.len() {
                assert(b.vertices@[walk[i] as int].edges == a.vertices@[walk[i] as int].edges);
            }
        }
        assert(b.is_walk(walk));
    }

    /// the same adjacency gives the same weighted paths
    proof fn lemma_path_same(a: &CompleteGraph, b: &CompleteGraph, start: VertexIndex, path: Seq<(VertexIndex, Weight)>)
        requires
            a.is_weighted_path(start, path),
            a.wf(),
            start < a.vertex_num,
            b.vertices@.len() == a.vertices@.len(),
            forall|x: int| 0 <= x < b.vertices@.len() ==> (#[trigger] b.vertices@[x]).edges == a.vertices@[x].edges,
        ensures
            b.is_weighted_path(start, path),
    {
        assert forall|i: int| 0 <= i < path.len() implies #[trigger] b.path_step(start, path, i) by {
            assert(a.path_step(start, path, i));
            Self::lemma_path_in_range(a, start, path, i);
            let prev = CompleteGraph::path_prev(start, path, i);
            if 0 <= prev < b.vertices@.len() {
                assert(b.vertices@[prev as int].edges == a.vertices@[prev as int].edges);
            }
        }
    }
}


impl SubGraphBuilder {
    /// the total weight of the subgraph
    pub fn total_weight(&self) -> (r: Weight)
        requires
            self.wf(),
            self.subgraph@.len() * MAX_EDGE_WEIGHT <= Weight::MAX,
        ensures
            exists|es: Seq<EdgeIndex>|
                {
                    &&& es.no_duplicates()
                    &&& es.to_set() == self.subgraph@
                    &&& r == weight_sum(self.complete_graph.weighted_edges@, es)
                },
    {
        broadcast use vstd::std_specs::btree::group_btree_axioms;

        let ghost w = self.complete_graph.weighted_edges@;
        let ghost mut seen: Seq<EdgeIndex> = Seq::empty();
        let mut weight: Weight = 0;
        for edge_index in it: self.subgraph.iter()
            invariant
                self.wf(),
                w == self.complete_graph.weighted_edges@,
                self.subgraph@.len() * MAX_EDGE_WEIGHT <= Weight::MAX,
                it.seq().unref().to_set() == self.subgraph@,
                it.seq().len() == self.subgraph@.len(),
                it.seq().unref().no_duplicates(),
                seen == it.seq().unref().take(it.index() as int),
                it.index() == it.seq().len() ==> seen == it.seq().unref(),
                weight == weight_sum(w, seen),
                0 <= weight <= it.index() * MAX_EDGE_WEIGHT,
        {
            proof {
                assert(it.seq().unref()[it.index() as int] == *edge_index);
                assert(it.seq().unref().to_set().contains(*edge_index));
                assert(self.subgraph@.contains(*edge_index));
                assert(edges_valid(self.complete_graph.vertex_num, w));
                assert(0 <= w[*edge_index as int].2 <= MAX_EDGE_WEIGHT);
                lemma_mul_step(it.index() as int, self.subgraph@.len() as int);
                seen = seen.push(*edge_index);
            }
            assert(seen =~= it.seq().unref().take(it.index() + 1));
            assert(seen.drop_last() =~= it.seq().unref().take(it.index() as int));
            assert(seen.len() == it.seq().len() ==> seen =~= it.seq().unref());
            weight = weight + self.complete_graph.weighted_edges[*edge_index].2;
        }
        proof {
            assert(seen.to_set() == self.subgraph@);
        }
        weight
    }

    /// the edges of the subgraph, each once
    pub fn get_subgraph(&self) -> (r: Vec<EdgeIndex>)
        ensures
            r@.to_set() == self.subgraph@,
            r@.no_duplicates(),
    {
        broadcast use vstd::std_specs::btree::group_btree_axioms;

        let mut r: Vec<EdgeIndex> = Vec::new();
        for edge_index in it: self.subgraph.iter()
            invariant
                it.seq().unref().to_set() == self.subgraph@,
                it.seq().unref().no_duplicates(),
                r@ == it.seq().unref().take(it.index() as int),
                it.index() == it.seq().len() ==> r@ == it.seq().unref(),
        {
            assert(it.seq().unref()[it.index() as int] == *edge_index);
            assert(it.seq().unref().take(it.index() + 1) =~= it.seq().unref().take(it.index() as int).push(*edge_index));
            assert(it.index() + 1 == it.seq().len() ==> it.seq().unref().take(it.index() + 1) =~= it.seq().unref());
            r.push(*edge_index);
        }
        r
    }
}

} // verus!
