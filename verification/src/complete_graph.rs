//! Complete graph built out of the skeleton decoding graph with Dijkstra's algorithm.
//!
//! The priority queue of Dijkstra's algorithm is the one of the `priority_queue` crate; its
//! contents are modelled as a map from vertex to priority, where the priority is the negated
//! path weight so that the greatest priority is the shortest path.

use crate::dual_module::EdgeWeightModifier;
use crate::util::{EdgeIndex, FastClearTimestamp, SolverInitializer, VertexIndex, VertexNum, Weight};
use priority_queue::PriorityQueue;
use std::collections::BTreeMap;
use std::hash::Hash;
use vstd::prelude::*;
use vstd::set_lib::{lemma_int_range, lemma_len_subset, set_int_range};

verus! {

/// the largest weight of a single skeleton edge, so that a path through all vertices fits in
/// a [`Weight`]
pub const MAX_EDGE_WEIGHT: Weight = 0x4000_0000;

/// the largest number of vertices of a complete graph
pub const MAX_VERTEX_NUM: usize = 0x400_0000;

#[verifier::external_type_specification]
#[verifier::external_body]
#[verifier::reject_recursive_types(I)]
#[verifier::reject_recursive_types(P)]
#[verifier::reject_recursive_types(H)]
pub struct ExPriorityQueue<I: Hash + Eq, P: Ord, H>(PriorityQueue<I, P, H>);

/// the items of a priority queue, each with its priority
pub uninterp spec fn queue_contents(q: PriorityQueue<VertexIndex, Weight>) -> Map<VertexIndex, Weight>;

/// `PriorityQueue::new`: a new queue holds no item
#[verifier::external_body]
fn queue_new() -> (r: PriorityQueue<VertexIndex, Weight>)
    ensures
        queue_contents(r).dom() == Set::<VertexIndex>::empty(),
{
    PriorityQueue::new()
}

/// `PriorityQueue::push`: the item is inserted with the priority, replacing its old priority,
/// which is returned, if it was already there
#[verifier::external_body]
fn queue_push(q: &mut PriorityQueue<VertexIndex, Weight>, item: VertexIndex, priority: Weight) -> (r:
    Option<Weight>)
    ensures
        queue_contents(*final(q)) == queue_contents(*old(q)).insert(item, priority),
        r == (if queue_contents(*old(q)).contains_key(item) {
            Some(queue_contents(*old(q))[item])
        } else {
            None
        }),
{
    q.push(item, priority)
}

/// `PriorityQueue::pop`: removes and returns an item with the greatest priority, or `None` if
/// the queue is empty
#[verifier::external_body]
fn queue_pop(q: &mut PriorityQueue<VertexIndex, Weight>) -> (r: Option<(VertexIndex, Weight)>)
    ensures
        r is None ==> queue_contents(*old(q)).dom() == Set::<VertexIndex>::empty(),
        r is None ==> queue_contents(*final(q)) == queue_contents(*old(q)),
        r matches Some((item, priority)) ==> {
            &&& queue_contents(*old(q)).contains_key(item)
            &&& queue_contents(*old(q))[item] == priority
            &&& forall|k: VertexIndex| #[trigger]
                queue_contents(*old(q)).contains_key(k) ==> queue_contents(*old(q))[k]
                    <= priority
            &&& queue_contents(*final(q)) == queue_contents(*old(q)).remove(item)
        },
{
    q.pop()
}

/// `PriorityQueue::get_priority`: the priority of the item, if it is in the queue
#[verifier::external_body]
fn queue_get_priority(q: &PriorityQueue<VertexIndex, Weight>, item: VertexIndex) -> (r: Option<
    Weight,
>)
    ensures
        r == (if queue_contents(*q).contains_key(item) {
            Some(queue_contents(*q)[item])
        } else {
            None
        }),
{
    q.get_priority(&item).copied()
}

/// `PriorityQueue::change_priority`: sets the priority of an item already in the queue and
/// returns the old one; an item not in the queue is left out
#[verifier::external_body]
fn queue_change_priority(
    q: &mut PriorityQueue<VertexIndex, Weight>,
    item: VertexIndex,
    priority: Weight,
) -> (r: Option<Weight>)
    ensures
        queue_contents(*old(q)).contains_key(item) ==> queue_contents(*final(q)) == queue_contents(
            *old(q),
        ).insert(item, priority) && r == Some(queue_contents(*old(q))[item]),
        !queue_contents(*old(q)).contains_key(item) ==> queue_contents(*final(q))
            == queue_contents(*old(q)) && r is None,
{
    q.change_priority(&item, priority)
}

/// build complete graph out of skeleton graph using Dijkstra's algorithm
#[derive(Debug)]
pub struct CompleteGraph {
    /// number of vertices
    pub vertex_num: VertexNum,
    /// the vertices to run Dijkstra's algorithm
    pub vertices: Vec<CompleteGraphVertex>,
    /// timestamp to invalidate all vertices without iterating them; only invalidating all
    /// vertices individually when active_timestamp is usize::MAX
    pub active_timestamp: FastClearTimestamp,
    /// remember the edges that's modified by erasures
    pub edge_modifier: EdgeWeightModifier,
    /// original edge weights
    pub weighted_edges: Vec<(VertexIndex, VertexIndex, Weight)>,
}

#[derive(Debug)]
pub struct CompleteGraphVertex {
    /// all skeleton graph edges connected to this vertex
    pub edges: BTreeMap<VertexIndex, Weight>,
    /// timestamp for Dijkstra's algorithm
    pub timestamp: FastClearTimestamp,
}

/// the neighbours of `v` after inserting the edges in order, a later edge between the same two
/// vertices replacing an earlier one
pub open spec fn adjacency_of(edges: Seq<(VertexIndex, VertexIndex, Weight)>, v: VertexIndex) -> Map<
    VertexIndex,
    Weight,
>
    decreases edges.len(),
{
    if edges.len() == 0 {
        Map::empty()
    } else {
        let m = adjacency_of(edges.drop_last(), v);
        let (i, j, w) = edges.last();
        let m1 = if i == v {
            m.insert(j, w)
        } else {
            m
        };
        if j == v {
            m1.insert(i, w)
        } else {
            m1
        }
    }
}

/// edge `e` of the list joins vertices `v` and `u`, in either order
pub open spec fn joins(edges: Seq<(VertexIndex, VertexIndex, Weight)>, e: int, v: int, u: int) -> bool {
    ||| (edges[e].0 == v && edges[e].1 == u)
    ||| (edges[e].0 == u && edges[e].1 == v)
}

/// the two ends of each edge
pub open spec fn endpoints(edges: Seq<(VertexIndex, VertexIndex, Weight)>) -> Seq<(VertexIndex, VertexIndex)> {
    edges.map_values(|x: (VertexIndex, VertexIndex, Weight)| (x.0, x.1))
}

/// a vertex adjacent to `v` in the adjacency built from the edges is joined to it by an edge
pub proof fn lemma_adjacency_keys(edges: Seq<(VertexIndex, VertexIndex, Weight)>, v: VertexIndex, u: VertexIndex)
    requires
        adjacency_of(edges, v).contains_key(u),
    ensures
        exists|e: int| 0 <= e < edges.len() && joins(edges, e, v as int, u as int),
    decreases edges.len(),
{
    let (i, j, w) = edges.last();
    let last = edges.len() - 1;
    if (j == v && u == i) || (i == v && u == j) {
        assert(joins(edges, last, v as int, u as int));
    } else {
        lemma_adjacency_keys(edges.drop_last(), v, u);
        let e = choose|e: int| 0 <= e < edges.drop_last().len() && joins(edges.drop_last(), e, v as int, u as int);
        assert(joins(edges, e, v as int, u as int));
    }
}

/// no two edges of the list join the same two vertices
pub open spec fn no_parallel_edges(edges: Seq<(VertexIndex, VertexIndex, Weight)>) -> bool {
    forall|e: int, f: int|
        0 <= e < edges.len() && 0 <= f < edges.len() && e != f ==> !#[trigger] joins(edges, f, edges[e].0 as int, edges[e].1 as int)
}

/// whether edges are parallel depends on their ends only
pub proof fn lemma_no_parallel_endpoints(a: Seq<(VertexIndex, VertexIndex, Weight)>, b: Seq<(VertexIndex, VertexIndex, Weight)>)
    requires
        endpoints(a) == endpoints(b),
    ensures
        no_parallel_edges(a) == no_parallel_edges(b),
{
    assert(a.len() == endpoints(a).len() && b.len() == endpoints(b).len());
    assert forall|e: int| 0 <= e < a.len() implies a[e].0 == b[e].0 && a[e].1 == b[e].1 by {
        assert(endpoints(a)[e] == endpoints(b)[e]);
    }
    assert forall|e: int, f: int| 0 <= e < a.len() && 0 <= f < a.len() implies joins(a, f, a[e].0 as int, a[e].1 as int)
        == joins(b, f, b[e].0 as int, b[e].1 as int) by {
        assert(endpoints(a)[e] == endpoints(b)[e]);
        assert(endpoints(a)[f] == endpoints(b)[f]);
    }
}

/// without parallel edges, both ends of each edge see the other one at the weight of that edge
pub proof fn lemma_adjacency_of_edge(edges: Seq<(VertexIndex, VertexIndex, Weight)>, e: int)
    requires
        no_parallel_edges(edges),
        0 <= e < edges.len(),
    ensures
        adjacency_of(edges, edges[e].0).contains_key(edges[e].1),
        adjacency_of(edges, edges[e].0)[edges[e].1] == edges[e].2,
        adjacency_of(edges, edges[e].1).contains_key(edges[e].0),
        adjacency_of(edges, edges[e].1)[edges[e].0] == edges[e].2,
    decreases edges.len(),
{
    let n = edges.len() - 1;
    if e < n {
        let front = edges.drop_last();
        assert forall|x: int, y: int|
            0 <= x < front.len() && 0 <= y < front.len() && x != y implies !#[trigger] joins(front, y, front[x].0 as int, front[x].1 as int) by {
            assert(!joins(edges, y, edges[x].0 as int, edges[x].1 as int));
        }
        assert(front[e] == edges[e]);
        lemma_adjacency_of_edge(front, e);
        assert(!joins(edges, n, edges[e].0 as int, edges[e].1 as int));
    }
}

/// the adjacency of `v` after inserting edge `(i, j)` with weight `w` into `m`
pub open spec fn adjacency_insert(m: Map<VertexIndex, Weight>, v: VertexIndex, i: VertexIndex, j: VertexIndex, w: Weight) -> Map<VertexIndex, Weight> {
    let m1 = if i == v {
        m.insert(j, w)
    } else {
        m
    };
    if j == v {
        m1.insert(i, w)
    } else {
        m1
    }
}

/// changing the weight of the only edge between two vertices changes just that entry of their
/// adjacencies
pub proof fn lemma_adjacency_update(edges: Seq<(VertexIndex, VertexIndex, Weight)>, e: int, w: Weight, v: VertexIndex)
    requires
        0 <= e < edges.len(),
        forall|f: int| 0 <= f < edges.len() && f != e ==> !#[trigger] joins(edges, f, edges[e].0 as int, edges[e].1 as int),
    ensures
        adjacency_of(edges.update(e, (edges[e].0, edges[e].1, w)), v) == adjacency_insert(
            adjacency_of(edges, v),
            v,
            edges[e].0,
            edges[e].1,
            w,
        ),
    decreases edges.len(),
{
    let (i, j, w0) = edges[e];
    let updated = edges.update(e, (i, j, w));
    let n = edges.len() - 1;
    if e == n {
        assert(updated.drop_last() =~= edges.drop_last());
        assert(updated.last() == (i, j, w));
        assert(edges.last() == (i, j, w0));
        assert(adjacency_insert(adjacency_of(edges, v), v, i, j, w) =~= adjacency_insert(
            adjacency_of(edges.drop_last(), v),
            v,
            i,
            j,
            w,
        ));
    } else {
        let front = edges.drop_last();
        assert(updated.drop_last() =~= front.update(e, (i, j, w)));
        assert forall|f: int| 0 <= f < front.len() && f != e implies !#[trigger] joins(front, f, front[e].0 as int, front[e].1 as int) by {
            assert(front[f] == edges[f]);
            assert(!joins(edges, f, edges[e].0 as int, edges[e].1 as int));
        }
        lemma_adjacency_update(front, e, w, v);
        let (a, b, x) = edges.last();
        assert(updated.last() == edges.last());
        assert(!joins(edges, n, i as int, j as int));
        let m = adjacency_of(front, v);
        assert(adjacency_insert(adjacency_insert(m, v, i, j, w), v, a, b, x) =~= adjacency_insert(
            adjacency_insert(m, v, a, b, x),
            v,
            i,
            j,
            w,
        ));
    }
}

/// a skeleton edge list is valid for `vertex_num` vertices
pub open spec fn edges_valid(vertex_num: VertexNum, edges: Seq<(VertexIndex, VertexIndex, Weight)>) -> bool {
    forall|e: int|
        0 <= e < edges.len() ==> {
            let (i, j, w) = #[trigger] edges[e];
            &&& i < vertex_num
            &&& j < vertex_num
            &&& 0 <= w <= MAX_EDGE_WEIGHT
        }
}

/// the weight of the path to `v` in a shortest-path tree rooted at `source`
pub open spec fn tree_weight(
    source: VertexIndex,
    tree: Map<VertexIndex, (VertexIndex, Weight)>,
    v: VertexIndex,
) -> int {
    if v == source {
        0
    } else {
        tree[v].1 as int
    }
}

impl CompleteGraph {
    /// the neighbours of vertex `v` with the weights of the edges to them
    pub open spec fn adjacency(&self, v: int) -> Map<VertexIndex, Weight> {
        self.vertices@[v].edges@
    }

    /// the neighbours of vertex `v` are vertices of the graph, joined by edges in the weight range
    pub open spec fn vertex_wf(&self, v: int) -> bool {
        &&& forall|u: VertexIndex| #[trigger]
            self.vertices@[v].edges@.contains_key(u) ==> u < self.vertex_num && 0
                <= self.vertices@[v].edges@[u] <= MAX_EDGE_WEIGHT
        &&& self.vertices@[v].timestamp <= self.active_timestamp
    }

    /// the adjacency of every vertex is the one built from the current edge weights
    pub open spec fn adjacency_matches(&self) -> bool {
        forall|v: int| 0 <= v < self.vertex_num ==> #[trigger] self.vertices@[v].edges@ == adjacency_of(
            self.weighted_edges@,
            v as VertexIndex,
        )
    }

    /// every vertex in the adjacency of a vertex is joined to it by an edge of the graph
    pub open spec fn keys_are_edges(&self) -> bool {
        forall|v: int, u: VertexIndex|
            0 <= v < self.vertices@.len() && #[trigger] self.vertices@[v].edges@.contains_key(u) ==> exists|e: int|
                0 <= e < self.weighted_edges@.len() && joins(self.weighted_edges@, e, v, u as int)
    }

    pub open spec fn wf(&self) -> bool {
        &&& self.vertices@.len() == self.vertex_num
        &&& self.vertex_num < MAX_VERTEX_NUM
        &&& forall|v: int| 0 <= v < self.vertex_num ==> #[trigger] self.vertex_wf(v)
        &&& edges_valid(self.vertex_num, self.weighted_edges@)
        &&& forall|k: int|
            0 <= k < self.edge_modifier.modified@.len() ==> {
                let (e, w) = #[trigger] self.edge_modifier.modified@[k];
                &&& e < self.weighted_edges@.len()
                &&& 0 <= w <= MAX_EDGE_WEIGHT
            }
        &&& no_parallel_edges(self.weighted_edges@) ==> self.adjacency_matches()
    }

    /// every entry `t -> (p, w)` of `tree` is reached from a vertex `p` that is the source or
    /// itself in the tree, over an edge of the graph, and `w` is the weight of that path
    pub open spec fn is_path_tree(
        &self,
        source: VertexIndex,
        tree: Map<VertexIndex, (VertexIndex, Weight)>,
    ) -> bool {
        &&& !tree.contains_key(source)
        &&& forall|t: VertexIndex| #[trigger]
            tree.contains_key(t) ==> {
                let (p, w) = tree[t];
                &&& t < self.vertex_num
                &&& (p == source || tree.contains_key(p))
                &&& self.vertices@[p as int].edges@.contains_key(t)
                &&& w == tree_weight(source, tree, p) + self.vertices@[p as int].edges@[t]
            }
        &&& exists|rank: Map<VertexIndex, nat>| Self::ranked(source, tree, rank)
    }

    /// `rank` orders the tree: each vertex comes after the vertex before it on its path
    pub open spec fn ranked(
        source: VertexIndex,
        tree: Map<VertexIndex, (VertexIndex, Weight)>,
        rank: Map<VertexIndex, nat>,
    ) -> bool {
        forall|t: VertexIndex| #[trigger]
            tree.contains_key(t) ==> rank.contains_key(t) && (tree[t].0 == source || (
            rank.contains_key(tree[t].0) && rank[tree[t].0] < rank[t]))
    }

    /// the source and the tree hold every neighbour of each of their vertices
    pub open spec fn is_closed(&self, source: VertexIndex, tree: Map<VertexIndex, (VertexIndex, Weight)>) -> bool {
        forall|t: VertexIndex, u: VertexIndex|
            (t == source || tree.contains_key(t)) && #[trigger] self.vertices@[t as int].edges@.contains_key(
                u,
            ) ==> u == source || tree.contains_key(u)
    }

    /// create complete graph given skeleton graph
    pub fn new(vertex_num: VertexNum, weighted_edges: &Vec<(VertexIndex, VertexIndex, Weight)>) -> (r:
        Self)
        requires
            vertex_num < MAX_VERTEX_NUM,
            edges_valid(vertex_num, weighted_edges@),
        ensures
            r.wf(),
            r.vertex_num == vertex_num,
            r.weighted_edges@ == weighted_edges@,
            r.edge_modifier.modified@.len() == 0,
            r.adjacency_matches(),
            forall|v: int|
                0 <= v < vertex_num ==> #[trigger] r.vertices@[v].edges@ == adjacency_of(
                    weighted_edges@,
                    v as VertexIndex,
                ),
            r.keys_are_edges(),
    {
        broadcast use vstd::std_specs::btree::group_btree_axioms;

        let mut vertices: Vec<CompleteGraphVertex> = Vec::new();
        let mut v: usize = 0;
        while v < vertex_num
            invariant
                v <= vertex_num,
                vertices@.len() == v,
                forall|u: int|
                    0 <= u < v ==> (#[trigger] vertices@[u]).edges@ == Map::<
                        VertexIndex,
                        Weight,
                    >::empty() && vertices@[u].timestamp == 0,
            decreases vertex_num - v,
        {
            vertices.push(CompleteGraphVertex { edges: BTreeMap::new(), timestamp: 0 });
            v = v + 1;
        }
        let mut e: usize = 0;
        while e < weighted_edges.len()
            invariant
                e <= weighted_edges@.len(),
                vertices@.len() == vertex_num,
                vertex_num < MAX_VERTEX_NUM,
                edges_valid(vertex_num, weighted_edges@),
                forall|u: int|
                    0 <= u < vertex_num ==> (#[trigger] vertices@[u]).edges@ == adjacency_of(
                        weighted_edges@.subrange(0, e as int),
                        u as VertexIndex,
                    ) && vertices@[u].timestamp == 0,
            decreases weighted_edges@.len() - e,
        {
            let (i, j, weight) = weighted_edges[e];
            assert(weighted_edges@[e as int] == (i, j, weight));
            let ghost before = vertices@;
            let mut vertex = vertices.remove(i);
            vertex.edges.insert(j, weight);
            vertices.insert(i, vertex);
            let ghost middle = vertices@;
            let mut vertex = vertices.remove(j);
            vertex.edges.insert(i, weight);
            vertices.insert(j, vertex);
            proof {
                let sub_next = weighted_edges@.subrange(0, e + 1);
                assert(sub_next.drop_last() =~= weighted_edges@.subrange(0, e as int));
                assert(sub_next.last() == (i, j, weight));
                assert forall|u: int| 0 <= u < vertex_num implies (#[trigger] vertices@[u]).edges@
                    == adjacency_of(sub_next, u as VertexIndex) && vertices@[u].timestamp == 0 by {
                    assert(before[u].edges@ == adjacency_of(
                        weighted_edges@.subrange(0, e as int),
                        u as VertexIndex,
                    ));
                    if u == i {
                        assert(middle[u].edges@ == before[u].edges@.insert(j, weight));
                    } else {
                        assert(middle[u] == before[u]);
                    }
                }
            }
            e = e + 1;
        }
        assert(weighted_edges@.subrange(0, weighted_edges@.len() as int) =~= weighted_edges@);
        let mut edges_copy: Vec<(VertexIndex, VertexIndex, Weight)> = Vec::new();
        let mut k: usize = 0;
        while k < weighted_edges.len()
            invariant
                k <= weighted_edges@.len(),
                edges_copy@ == weighted_edges@.subrange(0, k as int),
            decreases weighted_edges@.len() - k,
        {
            edges_copy.push(weighted_edges[k]);
            k = k + 1;
            assert(edges_copy@ =~= weighted_edges@.subrange(0, k as int));
        }
        let r = CompleteGraph {
            vertex_num,
            vertices,
            active_timestamp: 0,
            edge_modifier: EdgeWeightModifier::new(),
            weighted_edges: edges_copy,
        };
        proof {
            assert forall|v: int| 0 <= v < vertex_num implies #[trigger] r.vertex_wf(v) by {
                Self::lemma_adjacency_of_valid(weighted_edges@, vertex_num, v as VertexIndex);
            }
            assert forall|v: int, u: VertexIndex|
                0 <= v < r.vertices@.len() && #[trigger] r.vertices@[v].edges@.contains_key(u) implies exists|e: int|
                0 <= e < r.weighted_edges@.len() && joins(r.weighted_edges@, e, v, u as int) by {
                assert(r.vertices@[v].edges@ == adjacency_of(weighted_edges@, v as VertexIndex));
                lemma_adjacency_keys(weighted_edges@, v as VertexIndex, u);
                let e = choose|e: int| 0 <= e < weighted_edges@.len() && #[trigger] joins(weighted_edges@, e, v as VertexIndex as int, u as int);
                assert(joins(r.weighted_edges@, e, v, u as int));
            }
        }
        r
    }

    /// every neighbour recorded by [`adjacency_of`] is a vertex joined by an edge in the range
    pub proof fn lemma_adjacency_of_valid(
        edges: Seq<(VertexIndex, VertexIndex, Weight)>,
        vertex_num: VertexNum,
        v: VertexIndex,
    )
        requires
            edges_valid(vertex_num, edges),
        ensures
            forall|u: VertexIndex| #[trigger]
                adjacency_of(edges, v).contains_key(u) ==> u < vertex_num && 0 <= adjacency_of(
                    edges,
                    v,
                )[u] <= MAX_EDGE_WEIGHT,
        decreases edges.len(),
    {
        if edges.len() > 0 {
            assert(edges_valid(vertex_num, edges.drop_last())) by {
                assert forall|e: int| 0 <= e < edges.drop_last().len() implies {
                    let (i, j, w) = #[trigger] edges.drop_last()[e];
                    &&& i < vertex_num
                    &&& j < vertex_num
                    &&& 0 <= w <= MAX_EDGE_WEIGHT
                } by {
                    assert(edges.drop_last()[e] == edges[e]);
                }
            }
            Self::lemma_adjacency_of_valid(edges.drop_last(), vertex_num, v);
            let (i, j, w) = edges[edges.len() - 1];
            assert(edges.last() == (i, j, w));
            let m = adjacency_of(edges.drop_last(), v);
            let m1 = if i == v {
                m.insert(j, w)
            } else {
                m
            };
            assert forall|u: VertexIndex| #[trigger] m1.contains_key(u) implies u < vertex_num && 0
                <= m1[u] <= MAX_EDGE_WEIGHT by {
                if i == v && u == j {
                } else {
                    assert(m.contains_key(u));
                }
            }
        }
    }
}


impl CompleteGraph {
    /// invalidate Dijkstra's algorithm state from previous call
    pub fn invalidate_previous_dijkstra(&mut self) -> (r: usize)
        requires
            old(self).wf(),
        ensures
            final(self).wf(),
            r == final(self).active_timestamp,
            r >= 1,
            old(self).active_timestamp < usize::MAX ==> r == old(self).active_timestamp + 1,
            old(self).active_timestamp == usize::MAX ==> r == 1,
            final(self).vertex_num == old(self).vertex_num,
            final(self).weighted_edges@ == old(self).weighted_edges@,
            final(self).edge_modifier == old(self).edge_modifier,
            final(self).vertices@.len() == old(self).vertices@.len(),
            forall|v: int|
                0 <= v < final(self).vertices@.len() ==> (#[trigger] final(self).vertices@[v]).edges
                    == old(self).vertices@[v].edges && final(self).vertices@[v].timestamp < r,
    {
        broadcast use vstd::std_specs::btree::group_btree_axioms;

        if self.active_timestamp == usize::MAX {
            // rarely happens
            self.active_timestamp = 0;
            let mut i: usize = 0;
            while i < self.vertex_num
                invariant
                    i <= self.vertex_num,
                    self.vertices@.len() == self.vertex_num,
                    self.active_timestamp == 0,
                    self.vertex_num == old(self).vertex_num,
                    old(self).vertices@.len() == self.vertex_num,
                    self.vertex_num < MAX_VERTEX_NUM,
                    self.weighted_edges@ == old(self).weighted_edges@,
                    self.edge_modifier == old(self).edge_modifier,
                    forall|v: int|
                        0 <= v < self.vertex_num ==> (#[trigger] self.vertices@[v]).edges
                            == old(self).vertices@[v].edges && (v < i ==> self.vertices@[v].timestamp
                            == 0),
                decreases self.vertex_num - i,
            {
                self.vertices[i].timestamp = 0;  // refresh all timestamps to avoid conflicts
                i = i + 1;
            }
        }
        let ghost mid = *self;
        self.active_timestamp = self.active_timestamp + 1;  // implicitly invalidate all vertices
        assert forall|v: int| 0 <= v < self.vertex_num implies self.vertex_wf(v)
            && (#[trigger] self.vertices@[v]).timestamp < self.active_timestamp && self.vertices@[v].edges
            == old(self).vertices@[v].edges by {
            assert(old(self).vertex_wf(v));
            assert(self.vertices@[v].edges == old(self).vertices@[v].edges);
            assert(mid.vertices@[v].timestamp <= mid.active_timestamp) by {
                if old(self).active_timestamp != usize::MAX {
                    assert(mid.vertices@[v] == old(self).vertices@[v]);
                }
            }
        }
        self.active_timestamp
    }

    /// `visited` are the vertices marked with the timestamp `ts`, `count` of them
    pub open spec fn visited_ok(&self, ts: usize, visited: Set<int>, count: nat) -> bool {
        &&& forall|v: int|
            0 <= v < self.vertex_num ==> (#[trigger] self.vertices@[v].timestamp == ts
                <==> visited.contains(v))
        &&& visited.subset_of(set_int_range(0, self.vertex_num as int))
        &&& visited.len() == count
        &&& visited.finite()
    }

    /// the paths found so far lead exactly to the visited vertices but the source, each bounded by
    /// `count` edges of the largest weight
    pub open spec fn tree_ok(
        &self,
        source: VertexIndex,
        visited: Set<int>,
        count: nat,
        tree: Map<VertexIndex, (VertexIndex, Weight)>,
    ) -> bool {
        &&& forall|t: VertexIndex| #[trigger]
            tree.contains_key(t) ==> visited.contains(t as int) && 0 <= tree[t].1 <= count
                * 0x4000_0000
        &&& forall|t: VertexIndex|
            visited.contains(t as int) && t != source ==> #[trigger] tree.contains_key(t)
        &&& self.is_path_tree(source, tree)
    }

    /// each vertex of the frontier `queue` is unvisited and, once the source is visited, is
    /// reached through `pending` from a visited vertex over an edge, with the priority the negated
    /// weight of that path
    pub open spec fn queue_ok(
        &self,
        source: VertexIndex,
        visited: Set<int>,
        count: nat,
        tree: Map<VertexIndex, (VertexIndex, Weight)>,
        queue: Map<VertexIndex, Weight>,
        pending: Map<VertexIndex, VertexIndex>,
    ) -> bool {
        forall|k: VertexIndex| #[trigger]
            queue.contains_key(k) ==> {
                &&& k < self.vertex_num
                &&& !visited.contains(k as int)
                &&& pending.contains_key(k)
                &&& 0 <= -queue[k] <= count * 0x4000_0000
                &&& visited.is_empty() || {
                    let p = pending[k];
                    &&& visited.contains(p as int)
                    &&& p != k
                    &&& self.vertices@[p as int].edges@.contains_key(k)
                    &&& -queue[k] == tree_weight(source, tree, p) + self.vertices@[p as int].edges@[k]
                }
            }
    }

    /// every neighbour of a visited vertex other than `open_vertex` is visited or in the frontier
    pub open spec fn frontier_closed(
        &self,
        visited: Set<int>,
        queue: Map<VertexIndex, Weight>,
        open_vertex: int,
    ) -> bool {
        forall|t: VertexIndex, u: VertexIndex|
            visited.contains(t as int) && t != open_vertex
                && #[trigger] self.vertices@[t as int].edges@.contains_key(u) ==> visited.contains(
                u as int,
            ) || queue.contains_key(u)
    }

    /// the state of Dijkstra's algorithm from `source` between two visits
    pub open spec fn dijkstra_state(
        &self,
        source: VertexIndex,
        ts: usize,
        visited: Set<int>,
        count: nat,
        tree: Map<VertexIndex, (VertexIndex, Weight)>,
        queue: Map<VertexIndex, Weight>,
        pending: Map<VertexIndex, VertexIndex>,
    ) -> bool {
        &&& self.visited_ok(ts, visited, count)
        &&& visited.is_empty() ==> queue == Map::<VertexIndex, Weight>::empty().insert(source, 0)
            && pending.contains_key(source) && pending[source] == source
        &&& !visited.is_empty() ==> visited.contains(source as int)
        &&& self.tree_ok(source, visited, count, tree)
        &&& self.queue_ok(source, visited, count, tree, queue, pending)
        &&& self.frontier_closed(visited, queue, -1)
        &&& forall|t: VertexIndex|
            visited.contains(t as int) && t != source ==> #[trigger] self.paths_at_least(source, t, tree[t].1 as int)
        &&& self.relaxed(source, visited, tree, queue)
    }

    /// no vertex of the tree lies farther than a vertex of the frontier `queue`
    pub open spec fn settled_before(tree: Map<VertexIndex, (VertexIndex, Weight)>, queue: Map<VertexIndex, Weight>) -> bool {
        forall|t: VertexIndex, k: VertexIndex|
            #[trigger] tree.contains_key(t) && #[trigger] queue.contains_key(k) ==> tree[t].1 <= -queue[k]
    }

    /// get all complete graph edges from the specific vertex, but will terminate if `terminate`
    /// vertex is found; the result maps each vertex found to the vertex before it on its path and
    /// the weight of that path
    pub fn all_edges_with_terminate(&mut self, vertex: VertexIndex, terminate: VertexIndex) -> (r:
        BTreeMap<VertexIndex, (VertexIndex, Weight)>)
        requires
            old(self).wf(),
            vertex < old(self).vertex_num,
        ensures
            final(self).wf(),
            final(self).vertex_num == old(self).vertex_num,
            final(self).weighted_edges@ == old(self).weighted_edges@,
            final(self).edge_modifier == old(self).edge_modifier,
            final(self).vertices@.len() == old(self).vertices@.len(),
            forall|v: int|
                0 <= v < final(self).vertices@.len() ==> (#[trigger] final(self).vertices@[v]).edges
                    == old(self).vertices@[v].edges,
            old(self).is_path_tree(vertex, r@),
            !r@.contains_key(terminate) ==> old(self).is_closed(vertex, r@),
            forall|t: VertexIndex| #[trigger]
                r@.contains_key(t) ==> 0 <= r@[t].1 <= MAX_VERTEX_NUM * MAX_EDGE_WEIGHT,
            forall|t: VertexIndex| #[trigger]
                r@.contains_key(t) ==> old(self).paths_at_least(vertex, t, r@[t].1 as int),
            r@.contains_key(terminate) ==> forall|u: VertexIndex|
                u != vertex && !r@.contains_key(u) ==> #[trigger] old(self).paths_at_least(
                    vertex,
                    u,
                    r@[terminate].1 as int,
                ),
            r@.contains_key(terminate) ==> forall|t: VertexIndex| #[trigger]
                r@.contains_key(t) ==> r@[t].1 <= r@[terminate].1,
    {
        broadcast use vstd::std_specs::btree::group_btree_axioms;

        let active_timestamp = self.invalidate_previous_dijkstra();
        let ghost g = *self;
        let mut pq = queue_new();
        queue_push(&mut pq, vertex, 0);
        let mut pending_previous: BTreeMap<VertexIndex, VertexIndex> = BTreeMap::new();
        pending_previous.insert(vertex, vertex);
        let mut computed_edges: BTreeMap<VertexIndex, (VertexIndex, Weight)> = BTreeMap::new();
        let ghost mut visited: Set<int> = Set::empty();
        let ghost mut count: nat = 0;
        let ghost mut rank: Map<VertexIndex, nat> = Map::empty();
        proof {
            assert(Self::ranked(vertex, computed_edges@, rank));
        }
        proof {
            assert(queue_contents(pq) =~= Map::<VertexIndex, Weight>::empty().insert(vertex, 0));
            assert forall|v: int| 0 <= v < self.vertex_num implies (#[trigger] self.vertices@[v].timestamp
                == active_timestamp <==> visited.contains(v)) by {
                assert(self.vertices@[v].timestamp < active_timestamp);
            }
        }
        loop
            invariant_except_break
                self.dijkstra_state(
                    vertex,
                    active_timestamp,
                    visited,
                    count,
                    computed_edges@,
                    queue_contents(pq),
                    pending_previous@,
                ),
                !computed_edges@.contains_key(terminate),
                Self::settled_before(computed_edges@, queue_contents(pq)),
            invariant
                self.wf(),
                self.vertex_num == g.vertex_num,
                self.weighted_edges@ == g.weighted_edges@,
                self.edge_modifier == g.edge_modifier,
                self.active_timestamp == active_timestamp,
                self.vertices@.len() == g.vertices@.len(),
                vertex < self.vertex_num,
                Self::ranked(vertex, computed_edges@, rank),
                forall|t: VertexIndex| #[trigger]
                    rank.contains_key(t) ==> rank[t] < count,
                forall|t: VertexIndex|
                    visited.contains(t as int) <==> #[trigger] rank.contains_key(t),
                forall|v: int|
                    0 <= v < self.vertices@.len() ==> (#[trigger] self.vertices@[v]).edges
                        == g.vertices@[v].edges,
            ensures
                self.wf(),
                self.vertex_num == g.vertex_num,
                self.weighted_edges@ == g.weighted_edges@,
                self.edge_modifier == g.edge_modifier,
                self.vertices@.len() == g.vertices@.len(),
                forall|v: int|
                    0 <= v < self.vertices@.len() ==> (#[trigger] self.vertices@[v]).edges
                        == g.vertices@[v].edges,
                self.is_path_tree(vertex, computed_edges@),
                forall|t: VertexIndex| #[trigger]
                    computed_edges@.contains_key(t) ==> 0 <= computed_edges@[t].1 <= MAX_VERTEX_NUM
                        * MAX_EDGE_WEIGHT,
                !computed_edges@.contains_key(terminate) ==> self.is_closed(
                    vertex,
                    computed_edges@,
                ),
                forall|t: VertexIndex| #[trigger]
                    computed_edges@.contains_key(t) ==> self.paths_at_least(vertex, t, computed_edges@[t].1 as int),
                computed_edges@.contains_key(terminate) ==> forall|u: VertexIndex|
                    u != vertex && !computed_edges@.contains_key(u) ==> #[trigger] self.paths_at_least(
                        vertex,
                        u,
                        computed_edges@[terminate].1 as int,
                    ),
                computed_edges@.contains_key(terminate) ==> forall|t: VertexIndex| #[trigger]
                    computed_edges@.contains_key(t) ==> computed_edges@[t].1 <= computed_edges@[terminate].1,
            decreases self.vertex_num - visited.len(),
        {
            proof {
                lemma_int_range(0, self.vertex_num as int);
                lemma_len_subset(visited, set_int_range(0, self.vertex_num as int));
            }
            let ghost old_queue = queue_contents(pq);
            let popped = queue_pop(&mut pq);
            let (target, priority) = match popped {
                None => {
                    proof {
                        assert(!visited.is_empty()) by {
                            if visited.is_empty() {
                                assert(old_queue.contains_key(vertex));
                                assert(old_queue.dom().contains(vertex));
                            }
                        }
                        assert forall|t: VertexIndex, u: VertexIndex|
                            (t == vertex || computed_edges@.contains_key(t))
                                && #[trigger] self.vertices@[t as int].edges@.contains_key(u) implies u
                            == vertex || computed_edges@.contains_key(u) by {
                            assert(visited.contains(t as int));
                            assert(visited.contains(u as int));
                        }
                        assert forall|t: VertexIndex| #[trigger]
                            computed_edges@.contains_key(t) implies self.paths_at_least(vertex, t, computed_edges@[t].1 as int) by {
                            assert(visited.contains(t as int));
                        }
                    }
                    break ;
                },
                Some(p) => p,
            };
            let weight: Weight = -priority;
            let previous: VertexIndex = match pending_previous.get(&target) {
                Some(p) => *p,
                None => vertex,
            };
            let ghost old_visited = visited;
            let ghost old_count = count;
            let ghost old_tree = computed_edges@;
            proof {
                assert(old_queue.contains_key(target));
                assert(queue_contents(pq) == old_queue.remove(target));
            }
            proof {
                if target != vertex {
                    assert(!old_visited.is_empty()) by {
                        if old_visited.is_empty() {
                            assert(old_queue.contains_key(target));
                        }
                    }
                    assert forall|path: Seq<(VertexIndex, Weight)>|
                        #[trigger] self.is_weighted_path(vertex, path) && path.len() > 0 && path.last().0 == target
                            implies path_weight(path) >= weight by {
                        assert forall|k: VertexIndex| #[trigger] old_queue.contains_key(k) implies weight <= -old_queue[k] by {}
                        self.lemma_pop_bound(vertex, old_visited, old_tree, old_queue, weight as int, path);
                    }
                }
            }
            // mark as visited
            let ghost pre = *self;
            self.vertices[target].timestamp = active_timestamp;
            proof {
                visited = visited.insert(target as int);
                rank = rank.insert(target, count);
                count = count + 1;
                assert(visited.len() == count);
                assert forall|v: int| 0 <= v < self.vertex_num implies (#[trigger] self.vertices@[v].timestamp
                    == active_timestamp <==> visited.contains(v)) by {
                    if v != target {
                        assert(self.vertices@[v] == g.vertices@[v] || old_visited.contains(v) == (self.vertices@[v].timestamp == active_timestamp));
                    }
                }
                assert forall|v: int| 0 <= v < self.vertex_num implies #[trigger] self.vertex_wf(v) by {
                    assert(pre.vertex_wf(v));
                }
                assert(visited.subset_of(set_int_range(0, self.vertex_num as int)));
                lemma_len_subset(visited, set_int_range(0, self.vertex_num as int));
            }
            if target != vertex {
                proof {
                    assert(!old_visited.is_empty());
                    assert(old_visited.contains(previous as int));
                }
                computed_edges.insert(target, (previous, weight));
                proof {
                    assert forall|t: VertexIndex| #[trigger]
                        computed_edges@.contains_key(t) implies rank.contains_key(t) && (
                    computed_edges@[t].0 == vertex || (rank.contains_key(computed_edges@[t].0)
                        && rank[computed_edges@[t].0] < rank[t])) by {
                        if t != target {
                            assert(old_tree.contains_key(t));
                        } else {
                            assert(old_visited.contains(previous as int));
                        }
                    }
                    assert(Self::ranked(vertex, computed_edges@, rank));
                    assert(tree_weight(vertex, computed_edges@, previous) == tree_weight(
                        vertex,
                        old_tree,
                        previous,
                    ));
                    assert forall|t: VertexIndex| #[trigger]
                        computed_edges@.contains_key(t) implies {
                        let (p, w) = computed_edges@[t];
                        &&& t < self.vertex_num
                        &&& (p == vertex || computed_edges@.contains_key(p))
                        &&& self.vertices@[p as int].edges@.contains_key(t)
                        &&& w == tree_weight(vertex, computed_edges@, p)
                            + self.vertices@[p as int].edges@[t]
                    } by {
                        if t != target {
                            assert(old_tree.contains_key(t));
                            let p = old_tree[t].0;
                            assert(p == vertex || old_tree.contains_key(p));
                            assert(tree_weight(vertex, computed_edges@, p) == tree_weight(
                                vertex,
                                old_tree,
                                p,
                            ));
                        }
                    }
                    assert forall|t: VertexIndex|
                        visited.contains(t as int) && t != vertex implies #[trigger] computed_edges@.contains_key(
                        t,
                    ) by {
                        if t != target {
                            assert(old_visited.contains(t as int));
                        }
                    }
                }
                proof {
                    assert forall|t: VertexIndex|
                        visited.contains(t as int) && t != vertex implies #[trigger] self.paths_at_least(
                        vertex,
                        t,
                        computed_edges@[t].1 as int,
                    ) by {
                        assert forall|v: int| 0 <= v < self.vertices@.len() implies #[trigger] self.vertices@[v].edges
                            == pre.vertices@[v].edges by {}
                        if t == target {
                            self.lemma_paths_at_least_transfer(&pre, vertex, t, weight as int);
                        } else {
                            assert(old_visited.contains(t as int));
                            assert(pre.paths_at_least(vertex, t, old_tree[t].1 as int));
                            self.lemma_paths_at_least_transfer(&pre, vertex, t, old_tree[t].1 as int);
                        }
                    }
                }
                if target == terminate {
                    proof {
                        assert forall|t: VertexIndex| #[trigger]
                            computed_edges@.contains_key(t) implies self.paths_at_least(vertex, t, computed_edges@[t].1 as int) by {
                            assert(visited.contains(t as int));
                        }
                        // every vertex left out lies at least as far as `terminate`
                        assert forall|u: VertexIndex| u != vertex && !computed_edges@.contains_key(u) implies #[trigger] self.paths_at_least(
                            vertex,
                            u,
                            weight as int,
                        ) by {
                            assert(!old_visited.contains(u as int));
                            assert forall|path: Seq<(VertexIndex, Weight)>|
                                #[trigger] pre.is_weighted_path(vertex, path) && path.len() > 0 && path.last().0 == u
                                    implies path_weight(path) >= weight by {
                                assert forall|k: VertexIndex| #[trigger] old_queue.contains_key(k) implies weight <= -old_queue[k] by {}
                                pre.lemma_pop_bound(vertex, old_visited, old_tree, old_queue, weight as int, path);
                            }
                            assert forall|v: int| 0 <= v < self.vertices@.len() implies #[trigger] self.vertices@[v].edges
                                == pre.vertices@[v].edges by {}
                            self.lemma_paths_at_least_transfer(&pre, vertex, u, weight as int);
                        }
                        assert(computed_edges@[terminate].1 == weight);
                        assert forall|t: VertexIndex| #[trigger] computed_edges@.contains_key(t) implies computed_edges@[t].1
                            <= weight by {
                            if t != target {
                                assert(old_tree.contains_key(t));
                                assert(old_queue.contains_key(target));
                            }
                        }
                    }
                    break ;  // early terminate
                }
            } else {
                proof {
                    assert(old_visited.is_empty());
                    assert(computed_edges@ == old_tree);
                    assert(Self::ranked(vertex, computed_edges@, rank));
                    assert forall|t: VertexIndex|
                        visited.contains(t as int) && t != vertex implies #[trigger] computed_edges@.contains_key(
                        t,
                    ) by {
                        assert(old_visited.contains(t as int));
                    }
                }
            }
            proof {
                assert(weight == tree_weight(vertex, computed_edges@, target));
                assert(0 <= weight <= old_count * 0x4000_0000);
                assert forall|k: VertexIndex| #[trigger]
                    queue_contents(pq).contains_key(k) implies {
                    &&& k < self.vertex_num
                    &&& !visited.contains(k as int)
                    &&& pending_previous@.contains_key(k)
                    &&& 0 <= -queue_contents(pq)[k] <= count * 0x4000_0000
                    &&& visited.is_empty() || {
                        let p = pending_previous@[k];
                        &&& visited.contains(p as int)
                        &&& p != k
                        &&& self.vertices@[p as int].edges@.contains_key(k)
                        &&& -queue_contents(pq)[k] == tree_weight(vertex, computed_edges@, p)
                            + self.vertices@[p as int].edges@[k]
                    }
                } by {
                    assert(old_queue.contains_key(k));
                    assert(!old_visited.is_empty());
                    let p = pending_previous@[k];
                    assert(tree_weight(vertex, computed_edges@, p) == tree_weight(
                        vertex,
                        old_tree,
                        p,
                    ));
                }
            }
            proof {
                assert forall|k: VertexIndex, p: VertexIndex|
                    #[trigger] queue_contents(pq).contains_key(k) && visited.contains(p as int) && p != target
                        && #[trigger] self.vertices@[p as int].edges@.contains_key(k) implies -queue_contents(pq)[k]
                        <= tree_weight(vertex, computed_edges@, p) + self.vertices@[p as int].edges@[k] by {
                    assert(old_visited.contains(p as int));
                    assert(old_queue.contains_key(k));
                    assert(pre.vertices@[p as int].edges == self.vertices@[p as int].edges);
                    assert(tree_weight(vertex, computed_edges@, p) == tree_weight(vertex, old_tree, p));
                }
            }
            proof {
                assert forall|t: VertexIndex| #[trigger] computed_edges@.contains_key(t) implies computed_edges@[t].1
                    <= weight by {
                    if t != target {
                        assert(old_tree.contains_key(t));
                        assert(old_queue.contains_key(target));
                    }
                }
                assert forall|t: VertexIndex, k: VertexIndex|
                    #[trigger] computed_edges@.contains_key(t) && #[trigger] queue_contents(pq).contains_key(k)
                        implies computed_edges@[t].1 <= -queue_contents(pq)[k] by {
                    assert(old_queue.contains_key(k));
                    if t != target {
                        assert(old_tree.contains_key(t));
                    }
                }
            }
            // add its neighbors to priority queue
            let ghost tree = computed_edges@;
            let adjacency = &self.vertices[target].edges;
            for kv in it: adjacency.iter()
                invariant
                    self.wf(),
                    vertex < self.vertex_num,
                    target < self.vertex_num,
                    target != terminate || target == vertex,
                    self.active_timestamp == active_timestamp,
                    computed_edges@ == tree,
                    *adjacency == self.vertices@[target as int].edges,
                    visited.contains(target as int),
                    !visited.is_empty(),
                    visited.contains(vertex as int),
                    count >= 1,
                    count <= self.vertex_num,
                    0 <= weight <= (count - 1) * 0x4000_0000,
                    weight == tree_weight(vertex, tree, target),
                    self.visited_ok(active_timestamp, visited, count),
                    self.tree_ok(vertex, visited, count, tree),
                    Self::ranked(vertex, tree, rank),
                    forall|t: VertexIndex| #[trigger]
                        rank.contains_key(t) ==> rank[t] < count,
                    forall|t: VertexIndex|
                        visited.contains(t as int) <==> #[trigger] rank.contains_key(t),
                    self.queue_ok(
                        vertex,
                        visited,
                        count,
                        tree,
                        queue_contents(pq),
                        pending_previous@,
                    ),
                    self.frontier_closed(visited, queue_contents(pq), target as int),
                    forall|u: VertexIndex| #[trigger]
                        self.vertices@[target as int].edges@.contains_key(u) ==> visited.contains(
                            u as int,
                        ) || queue_contents(pq).contains_key(u) || exists|i: int|
                            it.index() <= i < it.seq().len() && *it.seq()[i].0 == u,
                    forall|t: VertexIndex|
                        visited.contains(t as int) && t != vertex ==> #[trigger] self.paths_at_least(
                            vertex,
                            t,
                            tree[t].1 as int,
                        ),
                    self.relaxed_except(vertex, visited, tree, queue_contents(pq), target),
                    Self::settled_before(tree, queue_contents(pq)),
                    forall|t: VertexIndex| #[trigger] tree.contains_key(t) ==> tree[t].1 <= weight,
                    forall|u: VertexIndex|
                        #[trigger] self.vertices@[target as int].edges@.contains_key(u) && queue_contents(pq).contains_key(u)
                            && !(exists|i: int| it.index() <= i < it.seq().len() && *it.seq()[i].0 == u)
                            ==> -queue_contents(pq)[u] <= weight + self.vertices@[target as int].edges@[u],
            {
                let ghost q0 = queue_contents(pq);
                let ghost index0 = it.index();
                let neighbor = *kv.0;
                let neighbor_weight = *kv.1;
                proof {
                    assert(self.vertices@[target as int].edges@.contains_key(neighbor));
                    assert(self.vertices@[target as int].edges@[neighbor] == neighbor_weight);
                    assert(self.vertex_wf(target as int));
                }
                let edge_weight = weight + neighbor_weight;
                match queue_get_priority(&pq, neighbor) {
                    Some(existing_priority) => {
                        let existing_weight = -existing_priority;
                        let existing_previous = match pending_previous.get(&neighbor) {
                            Some(p) => *p,
                            None => neighbor,
                        };
                        // update the priority if weight is smaller or weight is equal but distance is smaller
                        // this is necessary if the graph has weight-0 edges, which could lead to cycles in the graph and cause deadlock
                        let mut update = edge_weight < existing_weight;
                        if edge_weight == existing_weight {
                            let distance = if neighbor > previous {
                                neighbor - previous
                            } else {
                                previous - neighbor
                            };
                            let existing_distance = if neighbor > existing_previous {
                                neighbor - existing_previous
                            } else {
                                existing_previous - neighbor
                            };
                            // prevent loop by enforcing strong non-descending
                            if distance < existing_distance || (distance == existing_distance
                                && previous < existing_previous) {
                                update = true;
                            }
                        }
                        if update {
                            queue_change_priority(&mut pq, neighbor, -edge_weight);
                            pending_previous.insert(neighbor, target);
                        }
                    },
                    None => {
                        // insert new entry only if neighbor has not been visited
                        if self.vertices[neighbor].timestamp != active_timestamp {
                            queue_push(&mut pq, neighbor, -edge_weight);
                            pending_previous.insert(neighbor, target);
                        }
                    },
                }
                proof {
                    let q1 = queue_contents(pq);
                    assert(*it.seq()[index0].0 == neighbor);
                    assert(forall|k: VertexIndex| k != neighbor ==> (#[trigger] q1.contains_key(k) == q0.contains_key(k)
                        && (q1.contains_key(k) ==> q1[k] == q0[k])));
                    assert(q1.contains_key(neighbor) ==> -q1[neighbor] <= weight + neighbor_weight);
                    assert(q1.contains_key(neighbor) && q0.contains_key(neighbor) ==> q1[neighbor] >= q0[neighbor]);
                    assert(q1.contains_key(neighbor) && !q0.contains_key(neighbor) ==> !visited.contains(neighbor as int));
                    assert(q1.contains_key(neighbor) ==> (q0.contains_key(neighbor) && q1[neighbor] == q0[neighbor])
                        || -q1[neighbor] == weight + neighbor_weight);
                    assert forall|t: VertexIndex, k: VertexIndex|
                        #[trigger] tree.contains_key(t) && #[trigger] q1.contains_key(k) implies tree[t].1 <= -q1[k] by {
                        if k == neighbor && !(q0.contains_key(neighbor) && q1[neighbor] == q0[neighbor]) {
                            assert(tree[t].1 <= weight);
                        } else {
                            assert(q0.contains_key(k));
                        }
                    }
                    assert forall|k: VertexIndex, p: VertexIndex|
                        #[trigger] q1.contains_key(k) && visited.contains(p as int) && p != target
                            && #[trigger] self.vertices@[p as int].edges@.contains_key(k) implies -q1[k]
                            <= tree_weight(vertex, tree, p) + self.vertices@[p as int].edges@[k] by {
                        if k == neighbor && !q0.contains_key(k) {
                            assert(self.frontier_closed(visited, q0, target as int));
                            assert(visited.contains(k as int) || q0.contains_key(k));
                        }
                    }
                    assert forall|u: VertexIndex|
                        #[trigger] self.vertices@[target as int].edges@.contains_key(u) && q1.contains_key(u)
                            && !(exists|i: int| it.index() <= i < it.seq().len() && *it.seq()[i].0 == u)
                            implies -q1[u] <= weight + self.vertices@[target as int].edges@[u] by {
                        if u != neighbor {
                            if exists|i: int| index0 <= i < it.seq().len() && *it.seq()[i].0 == u {
                                let i = choose|i: int| index0 <= i < it.seq().len() && *it.seq()[i].0 == u;
                                assert(i != index0);
                            }
                        }
                    }
                }
            }
            proof {
                assert forall|t: VertexIndex, u: VertexIndex|
                    visited.contains(t as int) && #[trigger] self.vertices@[t as int].edges@.contains_key(u)
                        implies visited.contains(u as int) || queue_contents(pq).contains_key(u) by {
                }
                assert forall|k: VertexIndex, p: VertexIndex|
                    #[trigger] queue_contents(pq).contains_key(k) && visited.contains(p as int)
                        && #[trigger] self.vertices@[p as int].edges@.contains_key(k) implies -queue_contents(pq)[k]
                        <= tree_weight(vertex, computed_edges@, p) + self.vertices@[p as int].edges@[k] by {
                    if p == target {
                        assert(self.vertices@[target as int].edges@.contains_key(k));
                    }
                }
            }
        }
        proof {
            assert forall|v: int| 0 <= v < self.vertices@.len() implies (#[trigger] self.vertices@[v]).edges
                == old(self).vertices@[v].edges by {
                assert(g.vertices@[v].edges == old(self).vertices@[v].edges);
            }
            assert forall|t: VertexIndex| #[trigger] computed_edges@.contains_key(t) implies {
                let (p, w) = computed_edges@[t];
                &&& t < old(self).vertex_num
                &&& (p == vertex || computed_edges@.contains_key(p))
                &&& old(self).vertices@[p as int].edges@.contains_key(t)
                &&& w == tree_weight(vertex, computed_edges@, p) + old(self).vertices@[p as int].edges@[t]
            } by {
                let p = computed_edges@[t].0;
                assert(self.vertices@[p as int].edges == old(self).vertices@[p as int].edges);
            }
            assert forall|t: VertexIndex| #[trigger]
                computed_edges@.contains_key(t) implies old(self).paths_at_least(vertex, t, computed_edges@[t].1 as int) by {
                assert(old(self).wf());
                assert forall|v: int| 0 <= v < old(self).vertices@.len() implies #[trigger] old(self).vertices@[v].edges
                    == self.vertices@[v].edges by {}
                old(self).lemma_paths_at_least_transfer(&*self, vertex, t, computed_edges@[t].1 as int);
            }
            if computed_edges@.contains_key(terminate) {
                assert forall|u: VertexIndex| u != vertex && !computed_edges@.contains_key(u) implies #[trigger] old(self).paths_at_least(
                    vertex,
                    u,
                    computed_edges@[terminate].1 as int,
                ) by {
                    assert(self.paths_at_least(vertex, u, computed_edges@[terminate].1 as int));
                    assert forall|v: int| 0 <= v < old(self).vertices@.len() implies #[trigger] old(self).vertices@[v].edges
                        == self.vertices@[v].edges by {}
                    old(self).lemma_paths_at_least_transfer(&*self, vertex, u, computed_edges@[terminate].1 as int);
                }
            }
            if !computed_edges@.contains_key(terminate) {
                assert forall|t: VertexIndex, u: VertexIndex|
                    (t == vertex || computed_edges@.contains_key(t))
                        && #[trigger] old(self).vertices@[t as int].edges@.contains_key(u) implies u
                    == vertex || computed_edges@.contains_key(u) by {
                    if t == vertex {
                    } else {
                        assert(t < self.vertex_num);
                    }
                    assert(self.vertices@[t as int].edges == old(self).vertices@[t as int].edges);
                    assert(self.vertices@[t as int].edges@.contains_key(u));
                }
            }
        }
        computed_edges
    }
}


/// the weight of each edge in `weighted_edges` after the modifications are applied in order
pub open spec fn apply_modifier(
    weighted_edges: Seq<(VertexIndex, VertexIndex, Weight)>,
    modifier: Seq<(EdgeIndex, Weight)>,
) -> Seq<(VertexIndex, VertexIndex, Weight)>
    decreases modifier.len(),
{
    if modifier.len() == 0 {
        weighted_edges
    } else {
        let before = apply_modifier(weighted_edges, modifier.drop_last());
        let (e, w) = modifier.last();
        before.update(e as int, (before[e as int].0, before[e as int].1, w))
    }
}

/// the original weight recorded for each modification, taken just before it is applied
pub open spec fn modifier_record(
    weighted_edges: Seq<(VertexIndex, VertexIndex, Weight)>,
    modifier: Seq<(EdgeIndex, Weight)>,
) -> Seq<(EdgeIndex, Weight)>
    decreases modifier.len(),
{
    if modifier.len() == 0 {
        Seq::empty()
    } else {
        let before = apply_modifier(weighted_edges, modifier.drop_last());
        let (e, w) = modifier.last();
        modifier_record(weighted_edges, modifier.drop_last()).push((e, before[e as int].2))
    }
}

/// the edge weights after undoing the recorded modifications, the last one first
pub open spec fn restore_modifier(
    weighted_edges: Seq<(VertexIndex, VertexIndex, Weight)>,
    record: Seq<(EdgeIndex, Weight)>,
) -> Seq<(VertexIndex, VertexIndex, Weight)>
    decreases record.len(),
{
    if record.len() == 0 {
        weighted_edges
    } else {
        let (e, w) = record.last();
        restore_modifier(
            weighted_edges.update(e as int, (weighted_edges[e as int].0, weighted_edges[e as int].1, w)),
            record.drop_last(),
        )
    }
}

/// a modifier list is valid for `edge_num` edges
pub open spec fn modifier_valid(edge_num: nat, modifier: Seq<(EdgeIndex, Weight)>) -> bool {
    forall|k: int|
        0 <= k < modifier.len() ==> {
            let (e, w) = #[trigger] modifier[k];
            &&& e < edge_num
            &&& 0 <= w <= MAX_EDGE_WEIGHT
        }
}

/// the sum of the weights of a path given as `(vertex, weight of the edge into it)`
pub open spec fn path_weight(path: Seq<(VertexIndex, Weight)>) -> int
    decreases path.len(),
{
    if path.len() == 0 {
        0
    } else {
        path[0].1 + path_weight(path.skip(1))
    }
}

impl CompleteGraph {
    /// `walk` goes from vertex to vertex over edges of the graph
    pub open spec fn is_walk(&self, walk: Seq<VertexIndex>) -> bool {
        &&& walk.len() >= 1
        &&& forall|i: int| 0 <= i < walk.len() - 1 ==> #[trigger] self.walk_step(walk, i)
    }

    /// the `i`-th vertex of `walk` is joined to the next one
    pub open spec fn walk_step(&self, walk: Seq<VertexIndex>, i: int) -> bool {
        self.vertices@[walk[i] as int].edges@.contains_key(walk[i + 1])
    }

    /// some walk leads from `a` to `b`
    pub open spec fn reachable(&self, a: VertexIndex, b: VertexIndex) -> bool {
        exists|walk: Seq<VertexIndex>| #[trigger]
            self.is_walk(walk) && walk[0] == a && walk.last() == b
    }

    /// `path` walks from `start` over edges of the graph, each entry holding the vertex reached
    /// and the weight of the edge into it
    pub open spec fn is_weighted_path(&self, start: VertexIndex, path: Seq<(VertexIndex, Weight)>) -> bool {
        forall|i: int| 0 <= i < path.len() ==> #[trigger] self.path_step(start, path, i)
    }

    /// the vertex before the `i`-th entry of a path from `start`
    pub open spec fn path_prev(start: VertexIndex, path: Seq<(VertexIndex, Weight)>, i: int) -> VertexIndex {
        if i == 0 {
            start
        } else {
            path[i - 1].0
        }
    }

    /// the `i`-th entry of a path from `start` follows an edge and holds its weight
    pub open spec fn path_step(&self, start: VertexIndex, path: Seq<(VertexIndex, Weight)>, i: int) -> bool {
        let prev = Self::path_prev(start, path, i);
        &&& self.vertices@[prev as int].edges@.contains_key(path[i].0)
        &&& path[i].1 == self.vertices@[prev as int].edges@[path[i].0]
    }

    /// an edge into the start of a weighted path extends it
    pub proof fn lemma_prepend_to_path(
        &self,
        start: VertexIndex,
        vertex: VertexIndex,
        weight: Weight,
        path: Seq<(VertexIndex, Weight)>,
    )
        requires
            self.is_weighted_path(vertex, path),
            self.vertices@[start as int].edges@.contains_key(vertex),
            weight == self.vertices@[start as int].edges@[vertex],
        ensures
            self.is_weighted_path(start, seq![(vertex, weight)] + path),
            path_weight(seq![(vertex, weight)] + path) == weight + path_weight(path),
            path.len() > 0 ==> (seq![(vertex, weight)] + path).last() == path.last(),
    {
        let p2 = seq![(vertex, weight)] + path;
        assert(p2.skip(1) =~= path);
        assert forall|i: int| 0 <= i < p2.len() implies #[trigger] self.path_step(start, p2, i) by {
            if i > 0 {
                assert(p2[i] == path[i - 1]);
                assert(self.path_step(vertex, path, i - 1));
                if i > 1 {
                    assert(p2[i - 1] == path[i - 2]);
                }
            }
        }
    }

    /// a closed tree holds every vertex reachable from its source
    pub proof fn lemma_closed_holds_reachable(
        &self,
        source: VertexIndex,
        tree: Map<VertexIndex, (VertexIndex, Weight)>,
        walk: Seq<VertexIndex>,
        k: int,
    )
        requires
            self.is_closed(source, tree),
            self.is_walk(walk),
            walk[0] == source,
            0 <= k < walk.len(),
        ensures
            walk[k] == source || tree.contains_key(walk[k]),
        decreases k,
    {
        if k > 0 {
            self.lemma_closed_holds_reachable(source, tree, walk, k - 1);
            assert(self.walk_step(walk, k - 1));
        }
    }

    /// every weighted path from `source` to `t` weighs at least `w`
    pub open spec fn paths_at_least(&self, source: VertexIndex, t: VertexIndex, w: int) -> bool {
        forall|path: Seq<(VertexIndex, Weight)>|
            #[trigger] self.is_weighted_path(source, path) && path.len() > 0 && path.last().0 == t
                ==> path_weight(path) >= w
    }

    /// the weight of a path is the weight of its first `i` entries and of the rest
    pub proof fn lemma_path_weight_split(path: Seq<(VertexIndex, Weight)>, i: int)
        requires
            0 <= i <= path.len(),
        ensures
            path_weight(path) == path_weight(path.take(i)) + path_weight(path.skip(i)),
        decreases i,
    {
        if i > 0 {
            Self::lemma_path_weight_split(path.skip(1), i - 1);
            assert(path.take(i).skip(1) =~= path.skip(1).take(i - 1));
            assert(path.skip(1).skip(i - 1) =~= path.skip(i));
        } else {
            assert(path.skip(0) =~= path);
        }
    }

    /// the weight of a non-empty path is the weight of all but its last entry plus that entry's
    pub proof fn lemma_path_weight_last(path: Seq<(VertexIndex, Weight)>)
        requires
            path.len() > 0,
        ensures
            path_weight(path) == path_weight(path.take(path.len() - 1)) + path.last().1,
    {
        let n = path.len() as int;
        Self::lemma_path_weight_split(path, n - 1);
        let s1 = path.skip(n - 1);
        assert(s1.len() == 1);
        assert(s1[0] == path.last());
        assert(s1.skip(1) =~= Seq::<(VertexIndex, Weight)>::empty());
        assert(path_weight(s1.skip(1)) == 0);
        assert(path_weight(s1) == s1[0].1 + path_weight(s1.skip(1)));
    }

    /// the vertex before each entry of a weighted path is a vertex of the graph
    pub proof fn lemma_path_prev_in_range(&self, start: VertexIndex, path: Seq<(VertexIndex, Weight)>, i: int)
        requires
            self.wf(),
            start < self.vertex_num,
            self.is_weighted_path(start, path),
            0 <= i <= path.len(),
        ensures
            i < path.len() ==> Self::path_prev(start, path, i) < self.vertex_num,
            i > 0 ==> path[i - 1].0 < self.vertex_num,
        decreases i,
    {
        if i > 0 {
            self.lemma_path_prev_in_range(start, path, i - 1);
            assert(self.path_step(start, path, i - 1));
            assert(self.vertex_wf(Self::path_prev(start, path, i - 1) as int));
        }
    }

    /// a weighted path weighs nothing negative
    pub proof fn lemma_path_weight_nonneg(&self, start: VertexIndex, path: Seq<(VertexIndex, Weight)>)
        requires
            self.wf(),
            start < self.vertex_num,
            self.is_weighted_path(start, path),
        ensures
            path_weight(path) >= 0,
        decreases path.len(),
    {
        if path.len() > 0 {
            let n = path.len() as int;
            let front = path.take(n - 1);
            assert forall|i: int| 0 <= i < front.len() implies #[trigger] self.path_step(start, front, i) by {
                assert(self.path_step(start, path, i));
                if i > 0 {
                    assert(front[i - 1] == path[i - 1]);
                }
            }
            self.lemma_path_weight_nonneg(start, front);
            Self::lemma_path_weight_last(path);
            self.lemma_path_prev_in_range(start, path, n - 1);
            assert(self.path_step(start, path, n - 1));
            assert(self.vertex_wf(Self::path_prev(start, path, n - 1) as int));
        }
    }

    /// a graph with the same adjacency has the same weighted paths
    pub proof fn lemma_weighted_path_transfer(
        &self,
        other: &Self,
        start: VertexIndex,
        path: Seq<(VertexIndex, Weight)>,
    )
        requires
            self.wf(),
            start < self.vertex_num,
            self.vertices@.len() == other.vertices@.len(),
            forall|v: int| 0 <= v < self.vertices@.len() ==> #[trigger] self.vertices@[v].edges == other.vertices@[v].edges,
            self.is_weighted_path(start, path),
        ensures
            other.is_weighted_path(start, path),
    {
        assert forall|i: int| 0 <= i < path.len() implies #[trigger] other.path_step(start, path, i) by {
            self.lemma_path_prev_in_range(start, path, i);
            assert(self.path_step(start, path, i));
            let prev = Self::path_prev(start, path, i);
            assert(self.vertices@[prev as int].edges == other.vertices@[prev as int].edges);
        }
    }

    /// at the visit of `target`, the vertex of least tentative weight in the frontier, no path
    /// from the source reaches an unvisited vertex for less than that weight
    pub proof fn lemma_pop_bound(
        &self,
        source: VertexIndex,
        visited: Set<int>,
        tree: Map<VertexIndex, (VertexIndex, Weight)>,
        queue: Map<VertexIndex, Weight>,
        w: int,
        path: Seq<(VertexIndex, Weight)>,
    )
        requires
            self.wf(),
            source < self.vertex_num,
            visited.contains(source as int),
            forall|t: VertexIndex|
                visited.contains(t as int) && t != source ==> #[trigger] self.paths_at_least(source, t, tree[t].1 as int),
            self.relaxed(source, visited, tree, queue),
            self.frontier_closed(visited, queue, -1),
            forall|k: VertexIndex| #[trigger] queue.contains_key(k) ==> w <= -queue[k],
            self.is_weighted_path(source, path),
            path.len() > 0,
            !visited.contains(path.last().0 as int),
        ensures
            path_weight(path) >= w,
        decreases path.len(),
    {
        let n = path.len() as int;
        let front = path.take(n - 1);
        assert forall|i: int| 0 <= i < front.len() implies #[trigger] self.path_step(source, front, i) by {
            assert(self.path_step(source, path, i));
            if i > 0 {
                assert(front[i - 1] == path[i - 1]);
            }
        }
        Self::lemma_path_weight_last(path);
        assert(path_weight(path) == path_weight(front) + path[n - 1].1);
        self.lemma_path_prev_in_range(source, path, n - 1);
        assert(self.path_step(source, path, n - 1));
        let x = Self::path_prev(source, path, n - 1);
        let y = path[n - 1].0;
        assert(self.vertex_wf(x as int));
        if visited.contains(x as int) {
            assert(queue.contains_key(y));
            self.lemma_path_weight_nonneg(source, front);
            if x != source {
                assert(front.last().0 == x);
                assert(self.paths_at_least(source, x, tree[x].1 as int));
                assert(self.is_weighted_path(source, front));
            }
            assert(-queue[y] <= tree_weight(source, tree, x) + self.vertices@[x as int].edges@[y]);
        } else {
            assert(front.last().0 == x);
            self.lemma_pop_bound(source, visited, tree, queue, w, front);
        }
    }

    /// `relaxed` but for the neighbours of the visited vertex `open_vertex`
    pub open spec fn relaxed_except(
        &self,
        source: VertexIndex,
        visited: Set<int>,
        tree: Map<VertexIndex, (VertexIndex, Weight)>,
        queue: Map<VertexIndex, Weight>,
        open_vertex: VertexIndex,
    ) -> bool {
        forall|k: VertexIndex, p: VertexIndex|
            #[trigger] queue.contains_key(k) && visited.contains(p as int) && p != open_vertex
                && #[trigger] self.vertices@[p as int].edges@.contains_key(k) ==> -queue[k] <= tree_weight(
                source,
                tree,
                p,
            ) + self.vertices@[p as int].edges@[k]
    }

    /// a bound on the paths to `t` holds in a graph with the same adjacency
    pub proof fn lemma_paths_at_least_transfer(&self, other: &Self, source: VertexIndex, t: VertexIndex, w: int)
        requires
            self.wf(),
            source < self.vertex_num,
            self.vertices@.len() == other.vertices@.len(),
            forall|v: int| 0 <= v < self.vertices@.len() ==> #[trigger] self.vertices@[v].edges == other.vertices@[v].edges,
            other.paths_at_least(source, t, w),
        ensures
            self.paths_at_least(source, t, w),
    {
        assert forall|path: Seq<(VertexIndex, Weight)>|
            #[trigger] self.is_weighted_path(source, path) && path.len() > 0 && path.last().0 == t implies path_weight(path) >= w by {
            self.lemma_weighted_path_transfer(other, source, path);
        }
    }

    /// each vertex of the frontier has a tentative weight no greater than the one through any
    /// visited neighbour
    pub open spec fn relaxed(
        &self,
        source: VertexIndex,
        visited: Set<int>,
        tree: Map<VertexIndex, (VertexIndex, Weight)>,
        queue: Map<VertexIndex, Weight>,
    ) -> bool {
        forall|k: VertexIndex, p: VertexIndex|
            #[trigger] queue.contains_key(k) && visited.contains(p as int) && #[trigger] self.vertices@[p as int].edges@.contains_key(k)
                ==> -queue[k] <= tree_weight(source, tree, p) + self.vertices@[p as int].edges@[k]
    }

    /// get all complete graph edges from the specific vertex
    pub fn all_edges(&mut self, vertex: VertexIndex) -> (r: BTreeMap<VertexIndex, (VertexIndex, Weight)>)
        requires
            old(self).wf(),
            vertex < old(self).vertex_num,
        ensures
            final(self).wf(),
            final(self).vertex_num == old(self).vertex_num,
            final(self).weighted_edges@ == old(self).weighted_edges@,
            final(self).edge_modifier == old(self).edge_modifier,
            final(self).vertices@.len() == old(self).vertices@.len(),
            forall|v: int|
                0 <= v < final(self).vertices@.len() ==> (#[trigger] final(self).vertices@[v]).edges
                    == old(self).vertices@[v].edges,
            old(self).is_path_tree(vertex, r@),
            old(self).is_closed(vertex, r@),
            forall|t: VertexIndex| #[trigger]
                r@.contains_key(t) ==> 0 <= r@[t].1 <= MAX_VERTEX_NUM * MAX_EDGE_WEIGHT,
            forall|t: VertexIndex| #[trigger]
                r@.contains_key(t) ==> old(self).paths_at_least(vertex, t, r@[t].1 as int),
    {
        broadcast use vstd::std_specs::btree::group_btree_axioms;

        let r = self.all_edges_with_terminate(vertex, usize::MAX);
        assert(!r@.contains_key(usize::MAX));
        r
    }

    /// get minimum-weight path between any two vertices `a` and `b`, in the order
    /// `a -> path[0].0 -> path[1].0 -> .... -> path[-1].0` and it's guaranteed that
    /// path[-1].0 = b; each entry also holds the weight of the edge into its vertex
    pub fn get_path(&mut self, a: VertexIndex, b: VertexIndex) -> (r: (Vec<(VertexIndex, Weight)>, Weight))
        requires
            old(self).wf(),
            a < old(self).vertex_num,
            b < old(self).vertex_num,
            a != b,
            old(self).reachable(a, b),
        ensures
            final(self).wf(),
            final(self).vertex_num == old(self).vertex_num,
            final(self).weighted_edges@ == old(self).weighted_edges@,
            final(self).edge_modifier == old(self).edge_modifier,
            final(self).vertices@.len() == old(self).vertices@.len(),
            forall|v: int|
                0 <= v < final(self).vertices@.len() ==> (#[trigger] final(self).vertices@[v]).edges
                    == old(self).vertices@[v].edges,
            r.0@.len() >= 1,
            r.0@.last().0 == b,
            old(self).keys_are_edges() ==> final(self).keys_are_edges(),
            old(self).is_weighted_path(a, r.0@),
            path_weight(r.0@) == r.1,
            old(self).paths_at_least(a, b, r.1 as int),
            forall|i: int| 0 <= i < r.0@.len() ==> (#[trigger] r.0@[i]).0 != a,
            forall|i: int, j: int| 0 <= i < j < r.0@.len() ==> (#[trigger] r.0@[i]).0 != (#[trigger] r.0@[j]).0,
    {
        broadcast use vstd::std_specs::btree::group_btree_axioms;

        let edges = self.all_edges_with_terminate(a, b);
        proof {
            if !edges@.contains_key(b) {
                let walk = choose|walk: Seq<VertexIndex>| #[trigger]
                    old(self).is_walk(walk) && walk[0] == a && walk.last() == b;
                old(self).lemma_closed_holds_reachable(a, edges@, walk, walk.len() - 1);
            }
        }
        let ghost g = *old(self);
        proof {
            assert forall|t: VertexIndex| #[trigger] edges@.contains_key(t) implies edges@[t].0 < g.vertex_num by {
                let p = edges@[t].0;
                if p != a {
                    assert(edges@.contains_key(p));
                }
            }
        }
        let ghost rank = choose|rank: Map<VertexIndex, nat>| CompleteGraph::ranked(a, edges@, rank);
        let total: Weight = match edges.get(&b) {
            Some(entry) => entry.1,
            None => 0,
        };
        let mut vertex = b;
        let mut path: Vec<(VertexIndex, Weight)> = Vec::new();
        while vertex != a
            invariant
                forall|t: VertexIndex| #[trigger]
                    edges@.contains_key(t) ==> {
                        let (p, w) = edges@[t];
                        &&& (p == a || edges@.contains_key(p))
                        &&& p < g.vertex_num
                        &&& g.vertices@[p as int].edges@.contains_key(t)
                        &&& w == tree_weight(a, edges@, p) + g.vertices@[p as int].edges@[t]
                    },
                CompleteGraph::ranked(a, edges@, rank),
                edges@.contains_key(b),
                total == edges@[b].1,
                vertex == a || edges@.contains_key(vertex),
                vertex < g.vertex_num,
                path@.len() == 0 ==> vertex == b,
                path@.len() > 0 ==> path@.last().0 == b,
                g.is_weighted_path(vertex, path@),
                path_weight(path@) + tree_weight(a, edges@, vertex) == total,
                !edges@.contains_key(a),
                forall|i: int| 0 <= i < path@.len() ==> edges@.contains_key((#[trigger] path@[i]).0),
                forall|i: int, j: int|
                    0 <= i < j < path@.len() ==> rank[(#[trigger] path@[i]).0] < rank[(#[trigger] path@[j]).0],
                vertex != a && path@.len() > 0 ==> rank[vertex] < rank[path@[0].0],
            decreases (if vertex == a {
                0
            } else {
                rank[vertex] + 1
            }),
        {
            let (previous, weight) = match edges.get(&vertex) {
                Some(entry) => *entry,
                None => (a, 0),
            };
            let previous_weight: Weight = if previous == a {
                0
            } else {
                match edges.get(&previous) {
                    Some(entry) => entry.1,
                    None => 0,
                }
            };
            let segment = weight - previous_weight;
            let ghost old_path = path@;
            proof {
                assert(edges@[vertex] == (previous, weight));
                assert(previous_weight == tree_weight(a, edges@, previous));
                g.lemma_prepend_to_path(previous, vertex, segment, old_path);
            }
            path.insert(0, (vertex, segment));
            proof {
                assert(path@ =~= seq![(vertex, segment)] + old_path);
                assert forall|i: int| 0 <= i < path@.len() implies edges@.contains_key((#[trigger] path@[i]).0) by {
                    if i > 0 {
                        assert(path@[i] == old_path[i - 1]);
                    }
                }
                assert forall|i: int, j: int|
                    0 <= i < j < path@.len() implies rank[(#[trigger] path@[i]).0] < rank[(#[trigger] path@[j]).0] by {
                    assert(path@[j] == old_path[j - 1]);
                    if i > 0 {
                        assert(path@[i] == old_path[i - 1]);
                    } else if j > 1 {
                        assert(rank[old_path[0].0] < rank[old_path[j - 1].0]);
                    }
                }
            }
            vertex = previous;
        }
        proof {
            assert forall|i: int, j: int| 0 <= i < j < path@.len() implies (#[trigger] path@[i]).0 != (#[trigger] path@[j]).0 by {
                assert(rank[path@[i].0] < rank[path@[j].0]);
            }
            assert forall|i: int| 0 <= i < path@.len() implies (#[trigger] path@[i]).0 != a by {
                assert(edges@.contains_key(path@[i].0));
            }
        }
        (path, total)
    }
}


impl CompleteGraph {
    /// set the weight of skeleton edge `e` in both directions of the adjacency
    #[verifier::rlimit(40)]
    #[verifier::spinoff_prover]
    fn set_edge_weight(&mut self, e: EdgeIndex, weight: Weight)
        requires
            old(self).wf(),
            e < old(self).weighted_edges@.len(),
            0 <= weight <= MAX_EDGE_WEIGHT,
        ensures
            final(self).wf(),
            final(self).vertex_num == old(self).vertex_num,
            final(self).edge_modifier == old(self).edge_modifier,
            final(self).active_timestamp == old(self).active_timestamp,
            final(self).vertices@.len() == old(self).vertices@.len(),
            final(self).weighted_edges@ == old(self).weighted_edges@.update(
                e as int,
                (old(self).weighted_edges@[e as int].0, old(self).weighted_edges@[e as int].1, weight),
            ),
            endpoints(final(self).weighted_edges@) == endpoints(old(self).weighted_edges@),
            old(self).keys_are_edges() ==> final(self).keys_are_edges(),
            no_parallel_edges(old(self).weighted_edges@) ==> final(self).adjacency_matches(),
    {
        broadcast use vstd::std_specs::btree::group_btree_axioms;

        let (vertex_idx_1, vertex_idx_2, _) = self.weighted_edges[e];
        assert(old(self).weighted_edges@[e as int].0 == vertex_idx_1);
        let ghost pre = *self;
        let mut vertex_1 = self.vertices.remove(vertex_idx_1);
        vertex_1.edges.insert(vertex_idx_2, weight);
        self.vertices.insert(vertex_idx_1, vertex_1);
        let ghost mid = *self;
        let mut vertex_2 = self.vertices.remove(vertex_idx_2);
        vertex_2.edges.insert(vertex_idx_1, weight);
        self.vertices.insert(vertex_idx_2, vertex_2);
        self.weighted_edges.set(e, (vertex_idx_1, vertex_idx_2, weight));
        proof {
            assert forall|v: int| 0 <= v < self.vertex_num implies #[trigger] self.vertex_wf(v) by {
                assert(pre.vertex_wf(v));
                if v == vertex_idx_2 {
                    if v == vertex_idx_1 {
                        assert(mid.vertices@[v].edges@ == pre.vertices@[v].edges@.insert(vertex_idx_2, weight));
                    } else {
                        assert(mid.vertices@[v] == pre.vertices@[v]);
                    }
                    assert(self.vertices@[v].edges@ == mid.vertices@[v].edges@.insert(vertex_idx_1, weight));
                } else if v == vertex_idx_1 {
                    assert(self.vertices@[v] == mid.vertices@[v]);
                    assert(mid.vertices@[v].edges@ == pre.vertices@[v].edges@.insert(vertex_idx_2, weight));
                } else {
                    assert(self.vertices@[v] == pre.vertices@[v]);
                }
            }
            assert forall|k: int|
                0 <= k < self.weighted_edges@.len() implies {
                let (i, j, w) = #[trigger] self.weighted_edges@[k];
                &&& i < self.vertex_num
                &&& j < self.vertex_num
                &&& 0 <= w <= MAX_EDGE_WEIGHT
            } by {
                assert(pre.weighted_edges@[k] == old(self).weighted_edges@[k]);
            }
            assert(endpoints(self.weighted_edges@) =~= endpoints(old(self).weighted_edges@));
            lemma_no_parallel_endpoints(self.weighted_edges@, old(self).weighted_edges@);
            if old(self).adjacency_matches() && no_parallel_edges(old(self).weighted_edges@) {
                let ew = old(self).weighted_edges@;
                assert forall|v: int| 0 <= v < self.vertex_num implies #[trigger] self.vertices@[v].edges@ == adjacency_of(
                    self.weighted_edges@,
                    v as VertexIndex,
                ) by {
                    assert forall|f: int| 0 <= f < ew.len() && f != e implies !#[trigger] joins(ew, f, ew[e as int].0 as int, ew[e as int].1 as int) by {
                        assert(!joins(ew, f, ew[e as int].0 as int, ew[e as int].1 as int));
                    }
                    lemma_adjacency_update(ew, e as int, weight, v as VertexIndex);
                    assert(self.weighted_edges@ =~= ew.update(e as int, (ew[e as int].0, ew[e as int].1, weight)));
                    assert(old(self).vertices@[v].edges@ == adjacency_of(ew, v as VertexIndex));
                    if v == vertex_idx_2 {
                        if v == vertex_idx_1 {
                            assert(mid.vertices@[v].edges@ == pre.vertices@[v].edges@.insert(vertex_idx_2, weight));
                        } else {
                            assert(mid.vertices@[v] == pre.vertices@[v]);
                        }
                        assert(self.vertices@[v].edges@ == mid.vertices@[v].edges@.insert(vertex_idx_1, weight));
                    } else if v == vertex_idx_1 {
                        assert(self.vertices@[v] == mid.vertices@[v]);
                        assert(mid.vertices@[v].edges@ == pre.vertices@[v].edges@.insert(vertex_idx_2, weight));
                    } else {
                        assert(self.vertices@[v] == pre.vertices@[v]);
                    }
                }
            }
            if old(self).keys_are_edges() {
                assert forall|v: int, u: VertexIndex|
                    0 <= v < self.vertices@.len() && #[trigger] self.vertices@[v].edges@.contains_key(u) implies exists|f: int|
                    0 <= f < self.weighted_edges@.len() && joins(self.weighted_edges@, f, v, u as int) by {
                    if (v == vertex_idx_1 && u == vertex_idx_2) || (v == vertex_idx_2 && u == vertex_idx_1) {
                        assert(joins(self.weighted_edges@, e as int, v, u as int));
                    } else {
                        if v == vertex_idx_2 {
                            if v == vertex_idx_1 {
                                assert(mid.vertices@[v].edges@ == pre.vertices@[v].edges@.insert(vertex_idx_2, weight));
                            } else {
                                assert(mid.vertices@[v] == pre.vertices@[v]);
                            }
                            assert(self.vertices@[v].edges@ == mid.vertices@[v].edges@.insert(vertex_idx_1, weight));
                        } else if v == vertex_idx_1 {
                            assert(self.vertices@[v] == mid.vertices@[v]);
                            assert(mid.vertices@[v].edges@ == pre.vertices@[v].edges@.insert(vertex_idx_2, weight));
                        } else {
                            assert(self.vertices@[v] == pre.vertices@[v]);
                        }
                        assert(old(self).vertices@[v].edges@.contains_key(u));
                        let f = choose|f: int| 0 <= f < old(self).weighted_edges@.len() && joins(old(self).weighted_edges@, f, v, u as int);
                        assert(joins(self.weighted_edges@, f, v, u as int));
                    }
                }
            }
        }
    }

    /// reset any temporary changes like erasure edges
    pub fn reset(&mut self)
        requires
            old(self).wf(),
        ensures
            endpoints(final(self).weighted_edges@) == endpoints(old(self).weighted_edges@),
            old(self).keys_are_edges() ==> final(self).keys_are_edges(),
            final(self).wf(),
            final(self).vertex_num == old(self).vertex_num,
            final(self).vertices@.len() == old(self).vertices@.len(),
            final(self).edge_modifier.modified@.len() == 0,
            final(self).weighted_edges@ == restore_modifier(
                old(self).weighted_edges@,
                old(self).edge_modifier.modified@,
            ),
            no_parallel_edges(old(self).weighted_edges@) ==> final(self).adjacency_matches(),
    {
        broadcast use vstd::std_specs::btree::group_btree_axioms;

        // recover erasure edges
        while self.edge_modifier.has_modified_edges()
            invariant
                self.wf(),
                self.vertex_num == old(self).vertex_num,
                self.vertices@.len() == old(self).vertices@.len(),
                restore_modifier(self.weighted_edges@, self.edge_modifier.modified@)
                    == restore_modifier(old(self).weighted_edges@, old(self).edge_modifier.modified@),
                endpoints(self.weighted_edges@) == endpoints(old(self).weighted_edges@),
                old(self).keys_are_edges() ==> self.keys_are_edges(),
                old(self).adjacency_matches() && no_parallel_edges(old(self).weighted_edges@)
                    ==> self.adjacency_matches(),
            decreases self.edge_modifier.modified@.len(),
        {
            assert(no_parallel_edges(old(self).weighted_edges@) ==> no_parallel_edges(self.weighted_edges@)) by {
                lemma_no_parallel_endpoints(self.weighted_edges@, old(self).weighted_edges@);
            }
            let ghost pre = *self;
            let (edge_index, original_weight) = self.edge_modifier.pop_modified_edge();
            assert(pre.edge_modifier.modified@.last() == pre.edge_modifier.modified@[
                pre.edge_modifier.modified@.len() - 1
            ]);
            let ghost mid = *self;
            assert forall|k: int|
                0 <= k < mid.edge_modifier.modified@.len() implies {
                let (e, w) = #[trigger] mid.edge_modifier.modified@[k];
                &&& e < mid.weighted_edges@.len()
                &&& 0 <= w <= MAX_EDGE_WEIGHT
            } by {
                assert(mid.edge_modifier.modified@[k] == pre.edge_modifier.modified@[k]);
            }
            assert forall|v: int| 0 <= v < mid.vertex_num implies #[trigger] mid.vertex_wf(v) by {
                assert(pre.vertex_wf(v));
            }
            self.set_edge_weight(edge_index, original_weight);
        }
    }

    /// set the weights of some edges, remembering the original weights to be recovered by
    /// [`CompleteGraph::reset`]
    fn load_edge_modifier(&mut self, edge_modifier: &Vec<(EdgeIndex, Weight)>)
        requires
            old(self).wf(),
            old(self).edge_modifier.modified@.len() == 0,
            modifier_valid(old(self).weighted_edges@.len(), edge_modifier@),
        ensures
            endpoints(final(self).weighted_edges@) == endpoints(old(self).weighted_edges@),
            old(self).keys_are_edges() ==> final(self).keys_are_edges(),
            final(self).wf(),
            final(self).vertex_num == old(self).vertex_num,
            final(self).vertices@.len() == old(self).vertices@.len(),
            final(self).weighted_edges@ == apply_modifier(old(self).weighted_edges@, edge_modifier@),
            final(self).edge_modifier.modified@ == modifier_record(
                old(self).weighted_edges@,
                edge_modifier@,
            ),
            no_parallel_edges(old(self).weighted_edges@) ==> final(self).adjacency_matches(),
    {
        broadcast use vstd::std_specs::btree::group_btree_axioms;

        let mut k: usize = 0;
        while k < edge_modifier.len()
            invariant
                k <= edge_modifier@.len(),
                self.wf(),
                self.vertex_num == old(self).vertex_num,
                self.vertices@.len() == old(self).vertices@.len(),
                self.weighted_edges@.len() == old(self).weighted_edges@.len(),
                modifier_valid(old(self).weighted_edges@.len(), edge_modifier@),
                self.weighted_edges@ == apply_modifier(
                    old(self).weighted_edges@,
                    edge_modifier@.subrange(0, k as int),
                ),
                self.edge_modifier.modified@ == modifier_record(
                    old(self).weighted_edges@,
                    edge_modifier@.subrange(0, k as int),
                ),
                endpoints(self.weighted_edges@) == endpoints(old(self).weighted_edges@),
                old(self).keys_are_edges() ==> self.keys_are_edges(),
                old(self).adjacency_matches() && no_parallel_edges(old(self).weighted_edges@)
                    ==> self.adjacency_matches(),
            decreases edge_modifier@.len() - k,
        {
            assert(no_parallel_edges(old(self).weighted_edges@) ==> no_parallel_edges(self.weighted_edges@)) by {
                lemma_no_parallel_endpoints(self.weighted_edges@, old(self).weighted_edges@);
            }
            let (edge_index, target_weight) = edge_modifier[k];
            assert(edge_modifier@[k as int] == (edge_index, target_weight));
            let original_weight = self.weighted_edges[edge_index].2;
            let ghost prefix = edge_modifier@.subrange(0, k as int);
            let ghost next = edge_modifier@.subrange(0, k + 1);
            assert(next.drop_last() =~= prefix);
            assert(next.last() == (edge_index, target_weight));
            self.set_edge_weight(edge_index, target_weight);
            let ghost pre = *self;
            self.edge_modifier.push_modified_edge(edge_index, original_weight);
            assert forall|j: int|
                0 <= j < self.edge_modifier.modified@.len() implies {
                let (e, w) = #[trigger] self.edge_modifier.modified@[j];
                &&& e < self.weighted_edges@.len()
                &&& 0 <= w <= MAX_EDGE_WEIGHT
            } by {
                if j < pre.edge_modifier.modified@.len() {
                    assert(self.edge_modifier.modified@[j] == pre.edge_modifier.modified@[j]);
                }
            }
            assert forall|v: int| 0 <= v < self.vertex_num implies #[trigger] self.vertex_wf(v) by {
                assert(pre.vertex_wf(v));
            }
            k = k + 1;
        }
        assert(edge_modifier@.subrange(0, edge_modifier@.len() as int) =~= edge_modifier@);
    }

    /// temporarily set some edges to 0 weight, and when it resets, those edges will be reverted
    /// back to the original weight
    pub fn load_erasures(&mut self, erasures: &Vec<EdgeIndex>)
        requires
            old(self).wf(),
            old(self).edge_modifier.modified@.len() == 0,
            forall|k: int| 0 <= k < erasures@.len() ==> #[trigger] erasures@[k] < old(self).weighted_edges@.len(),
        ensures
            endpoints(final(self).weighted_edges@) == endpoints(old(self).weighted_edges@),
            old(self).keys_are_edges() ==> final(self).keys_are_edges(),
            final(self).wf(),
            final(self).vertex_num == old(self).vertex_num,
            final(self).vertices@.len() == old(self).vertices@.len(),
            final(self).weighted_edges@ == apply_modifier(
                old(self).weighted_edges@,
                erasures@.map_values(|e: EdgeIndex| (e, 0 as Weight)),
            ),
            final(self).edge_modifier.modified@ == modifier_record(
                old(self).weighted_edges@,
                erasures@.map_values(|e: EdgeIndex| (e, 0 as Weight)),
            ),
            no_parallel_edges(old(self).weighted_edges@) ==> final(self).adjacency_matches(),
    {
        let mut edge_modifier: Vec<(EdgeIndex, Weight)> = Vec::new();
        let mut k: usize = 0;
        while k < erasures.len()
            invariant
                k <= erasures@.len(),
                edge_modifier@ == erasures@.subrange(0, k as int).map_values(
                    |e: EdgeIndex| (e, 0 as Weight),
                ),
            decreases erasures@.len() - k,
        {
            edge_modifier.push((erasures[k], 0));
            k = k + 1;
            assert(edge_modifier@ =~= erasures@.subrange(0, k as int).map_values(
                |e: EdgeIndex| (e, 0 as Weight),
            ));
        }
        assert(erasures@.subrange(0, erasures@.len() as int) =~= erasures@);
        self.load_edge_modifier(&edge_modifier);
    }

    /// temporarily set some edges to the given weights, and when it resets, those edges will be
    /// reverted back to the original weight
    pub fn load_dynamic_weights(&mut self, dynamic_weights: &Vec<(EdgeIndex, Weight)>)
        requires
            old(self).wf(),
            old(self).edge_modifier.modified@.len() == 0,
            modifier_valid(old(self).weighted_edges@.len(), dynamic_weights@),
        ensures
            endpoints(final(self).weighted_edges@) == endpoints(old(self).weighted_edges@),
            old(self).keys_are_edges() ==> final(self).keys_are_edges(),
            final(self).wf(),
            final(self).vertex_num == old(self).vertex_num,
            final(self).vertices@.len() == old(self).vertices@.len(),
            final(self).weighted_edges@ == apply_modifier(old(self).weighted_edges@, dynamic_weights@),
            final(self).edge_modifier.modified@ == modifier_record(
                old(self).weighted_edges@,
                dynamic_weights@,
            ),
            no_parallel_edges(old(self).weighted_edges@) ==> final(self).adjacency_matches(),
    {
        self.load_edge_modifier(dynamic_weights);
    }
}

/// Resetting after loading a modifier gives every edge back the weight it had before: loading
/// records the weight it overwrites, and resetting undoes the records in reverse order.
pub proof fn lemma_reset_undoes_modifier(
    weighted_edges: Seq<(VertexIndex, VertexIndex, Weight)>,
    modifier: Seq<(EdgeIndex, Weight)>,
)
    requires
        modifier_valid(weighted_edges.len(), modifier),
    ensures
        restore_modifier(
            apply_modifier(weighted_edges, modifier),
            modifier_record(weighted_edges, modifier),
        ) == weighted_edges,
    decreases modifier.len(),
{
    if modifier.len() > 0 {
        let rest = modifier.drop_last();
        lemma_modifier_valid_drop_last(weighted_edges.len(), modifier);
        lemma_reset_undoes_modifier(weighted_edges, rest);
        lemma_apply_modifier_len(weighted_edges, rest);
        let before = apply_modifier(weighted_edges, rest);
        let (e, w) = modifier.last();
        assert(modifier[modifier.len() - 1] == (e, w));
        let after = before.update(e as int, (before[e as int].0, before[e as int].1, w));
        let record = modifier_record(weighted_edges, rest).push((e, before[e as int].2));
        assert(record.drop_last() =~= modifier_record(weighted_edges, rest));
        assert(after.update(e as int, (after[e as int].0, after[e as int].1, before[e as int].2))
            =~= before);
    }
}

/// Loading a modifier into a graph whose edges join distinct pairs of vertices and then resetting
/// gives back the graph as it was: the edge list, and with it the neighbours and weights that
/// every vertex sees.
pub proof fn lemma_reset_restores_graph(
    before: CompleteGraph,
    modifier: Seq<(EdgeIndex, Weight)>,
    after: CompleteGraph,
)
    requires
        before.wf(),
        after.wf(),
        after.vertex_num == before.vertex_num,
        no_parallel_edges(before.weighted_edges@),
        modifier_valid(before.weighted_edges@.len(), modifier),
        after.weighted_edges@ == restore_modifier(
            apply_modifier(before.weighted_edges@, modifier),
            modifier_record(before.weighted_edges@, modifier),
        ),
    ensures
        after.weighted_edges@ == before.weighted_edges@,
        forall|v: int| 0 <= v < before.vertex_num ==> #[trigger] after.vertices@[v].edges@ == before.vertices@[v].edges@,
{
    lemma_reset_undoes_modifier(before.weighted_edges@, modifier);
    assert forall|v: int| 0 <= v < before.vertex_num implies #[trigger] after.vertices@[v].edges@ == before.vertices@[
        v
    ].edges@ by {
        assert(after.vertices@[v].edges@ == adjacency_of(after.weighted_edges@, v as VertexIndex));
        assert(before.vertices@[v].edges@ == adjacency_of(before.weighted_edges@, v as VertexIndex));
    }
}

/// applying modifications keeps the number of edges
pub proof fn lemma_apply_modifier_len(
    weighted_edges: Seq<(VertexIndex, VertexIndex, Weight)>,
    modifier: Seq<(EdgeIndex, Weight)>,
)
    requires
        modifier_valid(weighted_edges.len(), modifier),
    ensures
        apply_modifier(weighted_edges, modifier).len() == weighted_edges.len(),
    decreases modifier.len(),
{
    if modifier.len() > 0 {
        lemma_modifier_valid_drop_last(weighted_edges.len(), modifier);
        lemma_apply_modifier_len(weighted_edges, modifier.drop_last());
        assert(modifier[modifier.len() - 1] == modifier.last());
    }
}

/// a prefix of a valid modifier list is valid
pub proof fn lemma_modifier_valid_drop_last(edge_num: nat, modifier: Seq<(EdgeIndex, Weight)>)
    requires
        modifier_valid(edge_num, modifier),
        modifier.len() > 0,
    ensures
        modifier_valid(edge_num, modifier.drop_last()),
{
    assert forall|k: int| 0 <= k < modifier.drop_last().len() implies {
        let (e, w) = #[trigger] modifier.drop_last()[k];
        &&& e < edge_num
        &&& 0 <= w <= MAX_EDGE_WEIGHT
    } by {
        assert(modifier.drop_last()[k] == modifier[k]);
    }
}


impl CompleteGraph {
    /// some path from `a` with total weight `w` ends at `b`
    pub open spec fn has_path(&self, a: VertexIndex, b: VertexIndex, w: int) -> bool {
        exists|path: Seq<(VertexIndex, Weight)>| #[trigger]
            self.is_weighted_path(a, path) && path.len() >= 1 && path.last().0 == b && path_weight(
                path,
            ) == w
    }

    /// an edge out of the end of a weighted path extends it
    pub proof fn lemma_append_to_path(
        &self,
        start: VertexIndex,
        path: Seq<(VertexIndex, Weight)>,
        vertex: VertexIndex,
        weight: Weight,
    )
        requires
            self.is_weighted_path(start, path),
            path.len() >= 1,
            self.vertices@[path.last().0 as int].edges@.contains_key(vertex),
            weight == self.vertices@[path.last().0 as int].edges@[vertex],
        ensures
            self.is_weighted_path(start, path.push((vertex, weight))),
            path_weight(path.push((vertex, weight))) == path_weight(path) + weight,
    {
        let p2 = path.push((vertex, weight));
        assert forall|i: int| 0 <= i < p2.len() implies #[trigger] self.path_step(start, p2, i) by {
            if i < path.len() {
                assert(p2[i] == path[i]);
                assert(self.path_step(start, path, i));
                if i > 0 {
                    assert(p2[i - 1] == path[i - 1]);
                }
            } else {
                assert(p2[i - 1] == path.last());
            }
        }
        lemma_path_weight_push(path, (vertex, weight));
    }

    /// each entry of a path tree is the end of a path of its weight from the source
    pub proof fn lemma_tree_has_path(
        &self,
        source: VertexIndex,
        tree: Map<VertexIndex, (VertexIndex, Weight)>,
        rank: Map<VertexIndex, nat>,
        t: VertexIndex,
    )
        requires
            self.wf(),
            source < self.vertex_num,
            self.is_path_tree(source, tree),
            Self::ranked(source, tree, rank),
            tree.contains_key(t),
        ensures
            self.has_path(source, t, tree[t].1 as int),
        decreases rank[t],
    {
        let (p, w) = tree[t];
        if p == source {
            let path = seq![(t, w)];
            assert(path.skip(1) =~= Seq::<(VertexIndex, Weight)>::empty());
            assert(path_weight(path.skip(1)) == 0);
            assert(path_weight(path) == w);
            assert(self.path_step(source, path, 0));
            assert(self.is_weighted_path(source, path));
        } else {
            self.lemma_tree_has_path(source, tree, rank, p);
            let pp = choose|path: Seq<(VertexIndex, Weight)>| #[trigger]
                self.is_weighted_path(source, path) && path.len() >= 1 && path.last().0 == p
                    && path_weight(path) == tree[p].1 as int;
            self.lemma_append_to_path(source, pp, t, self.vertices@[p as int].edges@[t]);
            let path = pp.push((t, self.vertices@[p as int].edges@[t]));
            assert(path.last().0 == t);
            assert(self.is_weighted_path(source, path));
        }
    }
}

/// appending an entry adds its weight
pub proof fn lemma_path_weight_push(path: Seq<(VertexIndex, Weight)>, x: (VertexIndex, Weight))
    ensures
        path_weight(path.push(x)) == path_weight(path) + x.1,
    decreases path.len(),
{
    if path.len() > 0 {
        assert(path.push(x).skip(1) =~= path.skip(1).push(x));
        assert(path.push(x)[0] == path[0]);
        lemma_path_weight_push(path.skip(1), x);
        assert(path_weight(path.push(x)) == path.push(x)[0].1 + path_weight(path.push(x).skip(1)));
        assert(path_weight(path) == path[0].1 + path_weight(path.skip(1)));
    } else {
        assert(path.push(x).skip(1) =~= Seq::<(VertexIndex, Weight)>::empty());
        assert(path_weight(path.push(x).skip(1)) == 0);
        assert(path.push(x)[0] == x);
        assert(path_weight(path.push(x)) == x.1 + path_weight(path.push(x).skip(1)));
    }
}

/// the complete graph of a decoding graph, built once: for each real vertex the path weights to
/// the other real vertices and to its nearest virtual vertex
#[derive(Debug)]
pub struct PrebuiltCompleteGraph {
    /// number of vertices
    pub vertex_num: VertexNum,
    /// all edge weights, if set to Weight::MAX then this edge does not exist
    pub edges: Vec<BTreeMap<VertexIndex, Weight>>,
    /// the virtual boundary weight
    pub virtual_boundary_weight: Vec<Option<(VertexIndex, Weight)>>,
}

/// the decoding graph given to the complete graph is valid
pub open spec fn initializer_fits(initializer: &SolverInitializer) -> bool {
    &&& initializer.vertex_num < MAX_VERTEX_NUM
    &&& edges_valid(initializer.vertex_num, initializer.weighted_edges@)
    &&& initializer.virtual_in_range()
}

impl PrebuiltCompleteGraph {
    /// which vertices are virtual
    pub fn virtual_flags(initializer: &SolverInitializer) -> (r: Vec<bool>)
        requires
            initializer.virtual_in_range(),
        ensures
            r@.len() == initializer.vertex_num,
            forall|v: int|
                0 <= v < initializer.vertex_num ==> #[trigger] r@[v]
                    == initializer.virtual_vertices@.contains(v as VertexIndex),
    {
        let mut is_virtual: Vec<bool> = Vec::new();
        let mut v: usize = 0;
        while v < initializer.vertex_num
            invariant
                v <= initializer.vertex_num,
                is_virtual@.len() == v,
                forall|u: int| 0 <= u < v ==> !#[trigger] is_virtual@[u],
            decreases initializer.vertex_num - v,
        {
            is_virtual.push(false);
            v = v + 1;
        }
        let mut k: usize = 0;
        while k < initializer.virtual_vertices.len()
            invariant
                k <= initializer.virtual_vertices@.len(),
                initializer.virtual_in_range(),
                is_virtual@.len() == initializer.vertex_num,
                forall|u: int|
                    0 <= u < initializer.vertex_num ==> #[trigger] is_virtual@[u]
                        == initializer.virtual_vertices@.subrange(0, k as int).contains(
                        u as VertexIndex,
                    ),
            decreases initializer.virtual_vertices@.len() - k,
        {
            let virtual_vertex = initializer.virtual_vertices[k];
            is_virtual.set(virtual_vertex, true);
            proof {
                let sub_next = initializer.virtual_vertices@.subrange(0, k + 1);
                let sub = initializer.virtual_vertices@.subrange(0, k as int);
                assert(sub_next =~= sub.push(virtual_vertex));
                assert forall|u: int| 0 <= u < initializer.vertex_num implies #[trigger] is_virtual@[u]
                    == sub_next.contains(u as VertexIndex) by {
                    if u == virtual_vertex {
                        assert(sub_next[k as int] == virtual_vertex);
                    } else {
                        if sub_next.contains(u as VertexIndex) {
                            let j = choose|j: int| 0 <= j < sub_next.len() && sub_next[j] == u as VertexIndex;
                            assert(sub[j] == u as VertexIndex);
                        }
                        if sub.contains(u as VertexIndex) {
                            let j = choose|j: int| 0 <= j < sub.len() && sub[j] == u as VertexIndex;
                            assert(sub_next[j] == u as VertexIndex);
                        }
                    }
                }
            }
            k = k + 1;
        }
        assert(initializer.virtual_vertices@.subrange(0, initializer.virtual_vertices@.len() as int)
            =~= initializer.virtual_vertices@);
        is_virtual
    }

    /// the complete graph edges of one vertex: the path weights to every real vertex found, and
    /// the nearest virtual vertex with its path weight; a virtual vertex gets none
    pub fn build_vertex(
        complete_graph: &mut CompleteGraph,
        is_virtual: &Vec<bool>,
        vertex_index: VertexIndex,
    ) -> (r: (BTreeMap<VertexIndex, Weight>, Option<(VertexIndex, Weight)>))
        requires
            old(complete_graph).wf(),
            is_virtual@.len() == old(complete_graph).vertex_num,
            vertex_index < old(complete_graph).vertex_num,
        ensures
            final(complete_graph).wf(),
            final(complete_graph).vertex_num == old(complete_graph).vertex_num,
            final(complete_graph).weighted_edges@ == old(complete_graph).weighted_edges@,
            final(complete_graph).edge_modifier == old(complete_graph).edge_modifier,
            final(complete_graph).vertices@.len() == old(complete_graph).vertices@.len(),
            forall|v: int|
                0 <= v < final(complete_graph).vertices@.len() ==> (#[trigger] final(complete_graph).vertices@[v]).edges == old(complete_graph).vertices@[v].edges,
            is_virtual@[vertex_index as int] ==> r.0@.dom().is_empty() && r.1 is None,
            forall|u: VertexIndex| #[trigger]
                r.0@.contains_key(u) ==> u < is_virtual@.len() && !is_virtual@[u as int] && u
                    != vertex_index && old(complete_graph).has_path(vertex_index, u, r.0@[u] as int)
                    && 0 <= r.0@[u] <= MAX_VERTEX_NUM * MAX_EDGE_WEIGHT,
            r.1 matches Some((b, w)) ==> b < is_virtual@.len() && is_virtual@[b as int]
                && old(complete_graph).has_path(vertex_index, b, w as int) && 0 <= w
                <= MAX_VERTEX_NUM * MAX_EDGE_WEIGHT,
            forall|u: VertexIndex| #[trigger]
                r.0@.contains_key(u) ==> old(complete_graph).paths_at_least(vertex_index, u, r.0@[u] as int),
            !is_virtual@[vertex_index as int] ==> forall|u: VertexIndex|
                u < is_virtual@.len() && !is_virtual@[u as int] && u != vertex_index && #[trigger] old(
                    complete_graph,
                ).reachable(vertex_index, u) ==> r.0@.contains_key(u),
            r.1 matches Some((b, w)) ==> forall|c: VertexIndex|
                c < is_virtual@.len() && is_virtual@[c as int] ==> #[trigger] old(complete_graph).paths_at_least(
                    vertex_index,
                    c,
                    w as int,
                ) && (c < b ==> old(complete_graph).paths_at_least(vertex_index, c, w + 1)),
            !is_virtual@[vertex_index as int] && r.1 is None ==> forall|c: VertexIndex|
                c < is_virtual@.len() && is_virtual@[c as int] ==> !#[trigger] old(complete_graph).reachable(
                    vertex_index,
                    c,
                ),
    {
        broadcast use vstd::std_specs::btree::group_btree_axioms;

        let mut edges: BTreeMap<VertexIndex, Weight> = BTreeMap::new();
        let mut boundary: Option<(VertexIndex, Weight)> = None;
        if is_virtual[vertex_index] {
            return (edges, boundary);
        }
        // only build graph for non-virtual vertices
        let complete_graph_edges = complete_graph.all_edges(vertex_index);
        let ghost g = *old(complete_graph);
        let ghost rank = choose|rank: Map<VertexIndex, nat>| CompleteGraph::ranked(
            vertex_index,
            complete_graph_edges@,
            rank,
        );
        let tree_map = &complete_graph_edges;
        proof {
            lemma_vertex_keys_ordered();
        }
        let iter = tree_map.iter();
        let ghost mut done: Set<VertexIndex> = Set::empty();
        proof {
            lemma_keys_increasing(vstd::std_specs::iter::IteratorSpec::remaining(&iter).map_values(|kv: (&VertexIndex, &(VertexIndex, Weight))| *kv.0));
            assert forall|i: int, j: int|
                0 <= i < j < vstd::std_specs::iter::IteratorSpec::remaining(&iter).len() implies *vstd::std_specs::iter::IteratorSpec::remaining(&iter)[i].0 < *vstd::std_specs::iter::IteratorSpec::remaining(&iter)[j].0 by {
                let keys = vstd::std_specs::iter::IteratorSpec::remaining(&iter).map_values(|kv: (&VertexIndex, &(VertexIndex, Weight))| *kv.0);
                assert(keys[i] == *vstd::std_specs::iter::IteratorSpec::remaining(&iter)[i].0);
                assert(keys[j] == *vstd::std_specs::iter::IteratorSpec::remaining(&iter)[j].0);
            }
        }
        for kv in it: iter
            invariant
                forall|i: int, j: int| 0 <= i < j < it.seq().len() ==> *it.seq()[i].0 < *it.seq()[j].0,
                forall|i: int| 0 <= i < it.seq().len() ==> complete_graph_edges@.contains_key(*#[trigger] it.seq()[i].0)
                    && complete_graph_edges@[*it.seq()[i].0] == *it.seq()[i].1,
                forall|t: VertexIndex| #[trigger] complete_graph_edges@.contains_key(t) ==> exists|i: int|
                    0 <= i < it.seq().len() && *it.seq()[i].0 == t,
                forall|u: VertexIndex| #[trigger]
                    edges@.contains_key(u) ==> complete_graph_edges@.contains_key(u) && edges@[u]
                        == complete_graph_edges@[u].1,
                forall|t: VertexIndex| #[trigger] done.contains(t) ==> complete_graph_edges@.contains_key(t),
                forall|t: VertexIndex| #[trigger]
                    complete_graph_edges@.contains_key(t) ==> done.contains(t) || exists|i: int|
                        it.index() <= i < it.seq().len() && *it.seq()[i].0 == t,
                forall|t: VertexIndex|
                    #[trigger] done.contains(t) && !is_virtual@[t as int] ==> edges@.contains_key(t),
                forall|t: VertexIndex|
                    #[trigger] done.contains(t) && is_virtual@[t as int] ==> (boundary matches Some((b, w))
                        && complete_graph_edges@[t].1 >= w && (t < b ==> complete_graph_edges@[t].1 > w)),
                boundary matches Some((b, w)) ==> done.contains(b) && complete_graph_edges@.contains_key(b)
                    && complete_graph_edges@[b].1 == w,
                forall|t: VertexIndex, i: int|
                    #[trigger] done.contains(t) && it.index() <= i < it.seq().len() ==> t < *#[trigger] it.seq()[i].0,
                g.wf(),
                vertex_index < g.vertex_num,
                g.is_path_tree(vertex_index, complete_graph_edges@),
                CompleteGraph::ranked(vertex_index, complete_graph_edges@, rank),
                is_virtual@.len() == g.vertex_num,
                forall|t: VertexIndex| #[trigger]
                    complete_graph_edges@.contains_key(t) ==> 0 <= complete_graph_edges@[t].1
                        <= MAX_VERTEX_NUM * MAX_EDGE_WEIGHT,
                forall|u: VertexIndex| #[trigger]
                    edges@.contains_key(u) ==> u < is_virtual@.len() && !is_virtual@[u as int] && u
                        != vertex_index && g.has_path(vertex_index, u, edges@[u] as int) && 0
                        <= edges@[u] <= MAX_VERTEX_NUM * MAX_EDGE_WEIGHT,
                boundary matches Some((b, w)) ==> b < is_virtual@.len() && is_virtual@[b as int]
                    && g.has_path(vertex_index, b, w as int) && 0 <= w <= MAX_VERTEX_NUM
                    * MAX_EDGE_WEIGHT,
        {
            let peer = *kv.0;
            let weight = (kv.1).1;
            proof {
                assert(complete_graph_edges@.contains_key(peer));
                assert(complete_graph_edges@[peer].1 == weight);
                g.lemma_tree_has_path(vertex_index, complete_graph_edges@, rank, peer);
            }
            if !is_virtual[peer] {
                edges.insert(peer, weight);
            }
            if is_virtual[peer] {
                let closer = match boundary {
                    None => true,
                    Some((_, boundary_weight)) => weight < boundary_weight,
                };
                if closer {
                    boundary = Some((peer, weight));
                }
            }
            proof {
                assert(*it.seq()[it.index() as int].0 == peer);
                done = done.insert(peer);
            }
        }
        proof {
            let tree = complete_graph_edges@;
            assert forall|u: VertexIndex| #[trigger] edges@.contains_key(u) implies g.paths_at_least(
                vertex_index,
                u,
                edges@[u] as int,
            ) by {
                assert(tree.contains_key(u));
            }
            assert forall|u: VertexIndex|
                u < is_virtual@.len() && !is_virtual@[u as int] && u != vertex_index && #[trigger] g.reachable(
                    vertex_index,
                    u,
                ) implies edges@.contains_key(u) by {
                let walk = choose|walk: Seq<VertexIndex>| #[trigger]
                    g.is_walk(walk) && walk[0] == vertex_index && walk.last() == u;
                g.lemma_closed_holds_reachable(vertex_index, tree, walk, walk.len() - 1);
                assert(tree.contains_key(u));
                assert(done.contains(u));
            }
            // a virtual vertex off the tree is reached by no path at all
            assert forall|c: VertexIndex, w: int|
                c < is_virtual@.len() && is_virtual@[c as int] && !tree.contains_key(c) implies #[trigger] g.paths_at_least(
                vertex_index,
                c,
                w,
            ) by {
                assert forall|path: Seq<(VertexIndex, Weight)>|
                    #[trigger] g.is_weighted_path(vertex_index, path) && path.len() > 0 && path.last().0 == c
                        implies path_weight(path) >= w by {
                    g.lemma_closed_holds_path(vertex_index, tree, path, path.len() - 1);
                }
            }
            if let Some((b, w)) = boundary {
                assert forall|c: VertexIndex|
                    c < is_virtual@.len() && is_virtual@[c as int] implies #[trigger] g.paths_at_least(
                    vertex_index,
                    c,
                    w as int,
                ) && (c < b ==> g.paths_at_least(vertex_index, c, w + 1)) by {
                    if tree.contains_key(c) {
                        assert(done.contains(c));
                        assert(g.paths_at_least(vertex_index, c, tree[c].1 as int));
                    } else {
                        assert(g.paths_at_least(vertex_index, c, w as int));
                        assert(g.paths_at_least(vertex_index, c, w + 1));
                    }
                }
            } else {
                assert forall|c: VertexIndex|
                    c < is_virtual@.len() && is_virtual@[c as int] implies !#[trigger] g.reachable(vertex_index, c) by {
                    if g.reachable(vertex_index, c) {
                        let walk = choose|walk: Seq<VertexIndex>| #[trigger]
                            g.is_walk(walk) && walk[0] == vertex_index && walk.last() == c;
                        g.lemma_closed_holds_reachable(vertex_index, tree, walk, walk.len() - 1);
                        assert(done.contains(c));
                    }
                }
            }
        }
        (edges, boundary)
    }

    /// remove the edges that are never better than matching both ends to their boundaries
    pub fn prune_edges(
        edges: &mut Vec<BTreeMap<VertexIndex, Weight>>,
        virtual_boundary_weight: &Vec<Option<(VertexIndex, Weight)>>,
    )
        requires
            old(edges)@.len() == virtual_boundary_weight@.len(),
            forall|v: int, u: VertexIndex|
                0 <= v < old(edges)@.len() && #[trigger] old(edges)@[v]@.contains_key(u) ==> u
                    < virtual_boundary_weight@.len(),
            forall|v: int|
                0 <= v < virtual_boundary_weight@.len() ==> (#[trigger] virtual_boundary_weight@[v] matches Some(
                    (_, w),
                ) ==> 0 <= w <= MAX_VERTEX_NUM * MAX_EDGE_WEIGHT),
        ensures
            final(edges)@.len() == old(edges)@.len(),
            forall|v: int, u: VertexIndex|
                0 <= v < final(edges)@.len() ==> (#[trigger] final(edges)@[v]@.contains_key(u) <==> (
                old(edges)@[v]@.contains_key(u) && !Self::dominated_by_boundary(
                    old(edges)@[v]@[u],
                    virtual_boundary_weight@[v],
                    virtual_boundary_weight@[u as int],
                ))),
            forall|v: int, u: VertexIndex|
                0 <= v < final(edges)@.len() && #[trigger] final(edges)@[v]@.contains_key(u) ==> final(edges)@[v]@[u] == old(edges)@[v]@[u],
    {
        broadcast use vstd::std_specs::btree::group_btree_axioms;

        let mut v: usize = 0;
        while v < edges.len()
            invariant
                v <= edges@.len(),
                edges@.len() == old(edges)@.len(),
                old(edges)@.len() == virtual_boundary_weight@.len(),
                forall|x: int, u: VertexIndex|
                    0 <= x < old(edges)@.len() && #[trigger] old(edges)@[x]@.contains_key(u) ==> u
                        < virtual_boundary_weight@.len(),
                forall|x: int|
                    0 <= x < virtual_boundary_weight@.len() ==> (
                    #[trigger] virtual_boundary_weight@[x] matches Some((_, w)) ==> 0 <= w
                        <= MAX_VERTEX_NUM * MAX_EDGE_WEIGHT),
                forall|x: int| v <= x < edges@.len() ==> #[trigger] edges@[x] == old(edges)@[x],
                forall|x: int, u: VertexIndex|
                    0 <= x < v ==> (#[trigger] edges@[x]@.contains_key(u) <==> (
                    old(edges)@[x]@.contains_key(u) && !Self::dominated_by_boundary(
                        old(edges)@[x]@[u],
                        virtual_boundary_weight@[x],
                        virtual_boundary_weight@[u as int],
                    ))),
                forall|x: int, u: VertexIndex|
                    0 <= x < v && #[trigger] edges@[x]@.contains_key(u) ==> edges@[x]@[u]
                        == old(edges)@[x]@[u],
            decreases edges@.len() - v,
        {
            let mut kept: BTreeMap<VertexIndex, Weight> = BTreeMap::new();
            let ghost current = edges@[v as int];
            let row = &edges[v];
            for kv in it: row.iter()
                invariant
                    *row == current,
                    v < old(edges)@.len(),
                    current == old(edges)@[v as int],
                    old(edges)@.len() == virtual_boundary_weight@.len(),
                    forall|u: VertexIndex| #[trigger]
                        current@.contains_key(u) ==> u < virtual_boundary_weight@.len(),
                    forall|x: int|
                        0 <= x < virtual_boundary_weight@.len() ==> (
                        #[trigger] virtual_boundary_weight@[x] matches Some((_, w)) ==> 0 <= w
                            <= MAX_VERTEX_NUM * MAX_EDGE_WEIGHT),
                    forall|u: VertexIndex| #[trigger]
                        kept@.contains_key(u) ==> current@.contains_key(u) && kept@[u] == current@[u]
                            && !Self::dominated_by_boundary(
                            current@[u],
                            virtual_boundary_weight@[v as int],
                            virtual_boundary_weight@[u as int],
                        ),
                    forall|u: VertexIndex| #[trigger]
                        current@.contains_key(u) && !Self::dominated_by_boundary(
                            current@[u],
                            virtual_boundary_weight@[v as int],
                            virtual_boundary_weight@[u as int],
                        ) ==> kept@.contains_key(u) || exists|i: int|
                            it.index() <= i < it.seq().len() && *it.seq()[i].0 == u,
            {
                let peer = *kv.0;
                let weight = *kv.1;
                proof {
                    assert(current@.contains_key(peer));
                }
                let remove = match (virtual_boundary_weight[v], virtual_boundary_weight[peer]) {
                    (Some((_, boundary_weight)), Some((_, boundary_weight_peer))) => weight
                        > boundary_weight + boundary_weight_peer,
                    _ => false,
                };
                if !remove {
                    kept.insert(peer, weight);
                }
            }
            edges.set(v, kept);
            v = v + 1;
        }
    }

    /// an edge of weight `w` between two vertices is no better than matching each of them to its
    /// boundary
    pub open spec fn dominated_by_boundary(
        w: Weight,
        boundary: Option<(VertexIndex, Weight)>,
        boundary_peer: Option<(VertexIndex, Weight)>,
    ) -> bool {
        match (boundary, boundary_peer) {
            (Some((_, b)), Some((_, c))) => w > b + c,
            _ => false,
        }
    }

    /// build the complete graph of a decoding graph
    #[verifier::rlimit(50)]
    #[verifier::spinoff_prover]
    pub fn new(initializer: &SolverInitializer) -> (r: Self)
        requires
            initializer_fits(initializer),
        ensures
            r.edges_symmetric(),
            r.vertex_num == initializer.vertex_num,
            r.edges@.len() == initializer.vertex_num,
            r.virtual_boundary_weight@.len() == initializer.vertex_num,
            forall|v: int|
                0 <= v < initializer.vertex_num && initializer.virtual_vertices@.contains(
                    v as VertexIndex,
                ) ==> (#[trigger] r.edges@[v])@.dom().is_empty() && r.virtual_boundary_weight@[v] is None,
            forall|v: VertexIndex, u: VertexIndex|
                v < initializer.vertex_num && u < initializer.vertex_num && #[trigger] r.edges@[v as int]@.contains_key(u)
                    ==> r.edges@[u as int]@.contains_key(v) && r.edges@[u as int]@[v] == r.edges@[v as int]@[u],
            forall|v: int, u: VertexIndex|
                0 <= v < initializer.vertex_num && #[trigger] r.edges@[v]@.contains_key(u) ==> {
                    &&& u < initializer.vertex_num
                    &&& u != v
                    &&& !initializer.virtual_vertices@.contains(u)
                    &&& !Self::dominated_by_boundary(
                        r.edges@[v]@[u],
                        r.virtual_boundary_weight@[v],
                        r.virtual_boundary_weight@[u as int],
                    )
                },
            forall|v: int|
                0 <= v < initializer.vertex_num ==> (#[trigger] r.virtual_boundary_weight@[v] matches Some(
                    (b, _),
                ) ==> b < initializer.vertex_num && initializer.virtual_vertices@.contains(b)),
            forall|v: VertexIndex, u: VertexIndex|
                v < initializer.vertex_num && !initializer.virtual_vertices@.contains(v)
                    && #[trigger] r.edges@[v as int]@.contains_key(u) ==> graph_distance(
                    initializer.weighted_edges@,
                    v,
                    u,
                    r.edges@[v as int]@[u] as int,
                ),
            forall|v: VertexIndex, u: VertexIndex, w: int|
                v < initializer.vertex_num && !initializer.virtual_vertices@.contains(v) && u
                    < initializer.vertex_num && u != v && !initializer.virtual_vertices@.contains(u)
                    && #[trigger] graph_distance(initializer.weighted_edges@, v, u, w) && !(
                r.virtual_boundary_weight@[v as int] matches Some((_, b)) && r.virtual_boundary_weight@[u as int] matches Some((_, c)) && w > b + c) ==> r.edges@[v as int]@.contains_key(u),
            forall|v: VertexIndex|
                v < initializer.vertex_num && !initializer.virtual_vertices@.contains(v) ==> (
                #[trigger] r.virtual_boundary_weight@[v as int] matches Some((b, w)) ==> graph_distance(
                    initializer.weighted_edges@,
                    v,
                    b,
                    w as int,
                )),
            forall|v: VertexIndex, c: VertexIndex|
                #![trigger r.virtual_boundary_weight@[v as int], initializer.virtual_vertices@.contains(c)]
                v < initializer.vertex_num && !initializer.virtual_vertices@.contains(v) && c
                    < initializer.vertex_num && initializer.virtual_vertices@.contains(c)
                    && r.virtual_boundary_weight@[v as int] is Some ==> graph_paths_at_least(
                    initializer.weighted_edges@,
                    v,
                    c,
                    r.virtual_boundary_weight@[v as int]->Some_0.1 as int,
                ) && (c < r.virtual_boundary_weight@[v as int]->Some_0.0 ==> graph_paths_at_least(
                    initializer.weighted_edges@,
                    v,
                    c,
                    r.virtual_boundary_weight@[v as int]->Some_0.1 + 1,
                )),
            forall|v: VertexIndex, c: VertexIndex|
                v < initializer.vertex_num && !initializer.virtual_vertices@.contains(v)
                    && r.virtual_boundary_weight@[v as int] is None && c < initializer.vertex_num
                    && initializer.virtual_vertices@.contains(c) ==> !#[trigger] graph_reachable(initializer.weighted_edges@, v, c),
    {
        broadcast use vstd::std_specs::btree::group_btree_axioms;

        let is_virtual = Self::virtual_flags(initializer);
        let mut complete_graph = CompleteGraph::new(initializer.vertex_num, &initializer.weighted_edges);
        let ghost g = complete_graph;
        let mut edges: Vec<BTreeMap<VertexIndex, Weight>> = Vec::new();
        let mut virtual_boundary_weight: Vec<Option<(VertexIndex, Weight)>> = Vec::new();
        let mut v: usize = 0;
        while v < initializer.vertex_num
            invariant
                v <= initializer.vertex_num,
                complete_graph.wf(),
                complete_graph.vertex_num == initializer.vertex_num,
                is_virtual@.len() == initializer.vertex_num,
                forall|x: int|
                    0 <= x < initializer.vertex_num ==> #[trigger] is_virtual@[x]
                        == initializer.virtual_vertices@.contains(x as VertexIndex),
                edges@.len() == v,
                virtual_boundary_weight@.len() == v,
                forall|x: int|
                    0 <= x < v && is_virtual@[x] ==> (#[trigger] edges@[x])@.dom().is_empty()
                        && virtual_boundary_weight@[x] is None,
                forall|x: int, u: VertexIndex|
                    0 <= x < v && #[trigger] edges@[x]@.contains_key(u) ==> u
                        < initializer.vertex_num && u != x && !is_virtual@[u as int],
                forall|x: int|
                    0 <= x < v ==> (#[trigger] virtual_boundary_weight@[x] matches Some((b, w)) ==> b
                        < initializer.vertex_num && is_virtual@[b as int] && 0 <= w
                        <= MAX_VERTEX_NUM * MAX_EDGE_WEIGHT),
                complete_graph.built_from(initializer.weighted_edges@),
                edges_valid(initializer.vertex_num, initializer.weighted_edges@),
                forall|x: VertexIndex, u: VertexIndex|
                    x < v && !is_virtual@[x as int] && #[trigger] edges@[x as int]@.contains_key(u) ==> graph_distance(
                        initializer.weighted_edges@,
                        x,
                        u,
                        edges@[x as int]@[u] as int,
                    ),
                forall|x: VertexIndex, u: VertexIndex, w: int|
                    x < v && !is_virtual@[x as int] && u < initializer.vertex_num && u != x && !is_virtual@[u as int]
                        && #[trigger] graph_distance(initializer.weighted_edges@, x, u, w) ==> edges@[x as int]@.contains_key(u),
                forall|x: VertexIndex|
                    x < v && !is_virtual@[x as int] ==> (#[trigger] virtual_boundary_weight@[x as int] matches Some((b, w))
                        ==> graph_distance(initializer.weighted_edges@, x, b, w as int)),
                forall|x: VertexIndex, c: VertexIndex|
                    #![trigger virtual_boundary_weight@[x as int], is_virtual@[c as int]]
                    x < v && !is_virtual@[x as int] && c < initializer.vertex_num && is_virtual@[c as int]
                        && virtual_boundary_weight@[x as int] is Some ==> graph_paths_at_least(
                        initializer.weighted_edges@,
                        x,
                        c,
                        virtual_boundary_weight@[x as int]->Some_0.1 as int,
                    ) && (c < virtual_boundary_weight@[x as int]->Some_0.0 ==> graph_paths_at_least(
                        initializer.weighted_edges@,
                        x,
                        c,
                        virtual_boundary_weight@[x as int]->Some_0.1 + 1,
                    )),
                forall|x: VertexIndex, c: VertexIndex|
                    x < v && !is_virtual@[x as int] && virtual_boundary_weight@[x as int] is None && c
                        < initializer.vertex_num && is_virtual@[c as int] ==> !#[trigger] graph_reachable(
                        initializer.weighted_edges@,
                        x,
                        c,
                    ),
            decreases initializer.vertex_num - v,
        {
            let ghost cg = complete_graph;
            let (vertex_edges, boundary) = Self::build_vertex(&mut complete_graph, &is_virtual, v);
            proof {
                let e = initializer.weighted_edges@;
                assert forall|v2: int| 0 <= v2 < complete_graph.vertex_num implies #[trigger] complete_graph.vertices@[v2].edges@
                    == adjacency_of(e, v2 as VertexIndex) by {
                    assert(cg.vertices@[v2].edges@ == adjacency_of(e, v2 as VertexIndex));
                }
                if !is_virtual@[v as int] {
                    assert forall|u: VertexIndex| #[trigger] vertex_edges@.contains_key(u) implies graph_distance(
                        e,
                        v,
                        u,
                        vertex_edges@[u] as int,
                    ) by {
                        cg.lemma_has_path_in_skeleton(e, v, u, vertex_edges@[u] as int);
                        cg.lemma_paths_at_least_in_skeleton(e, v, u, vertex_edges@[u] as int);
                    }
                    assert forall|u: VertexIndex, w: int|
                        u < initializer.vertex_num && u != v && !is_virtual@[u as int]
                            && #[trigger] graph_distance(e, v, u, w) implies vertex_edges@.contains_key(u) by {
                        cg.lemma_skeleton_path_reachable(e, v, u, w);
                        assert(cg.reachable(v, u));
                    }
                    if let Some((b, w)) = boundary {
                        cg.lemma_has_path_in_skeleton(e, v, b, w as int);
                        cg.lemma_paths_at_least_in_skeleton(e, v, b, w as int);
                        assert forall|c: VertexIndex|
                            c < initializer.vertex_num && is_virtual@[c as int] implies #[trigger] graph_paths_at_least(
                            e,
                            v,
                            c,
                            w as int,
                        ) && (c < b ==> graph_paths_at_least(e, v, c, w + 1)) by {
                            assert(cg.paths_at_least(v, c, w as int));
                            cg.lemma_paths_at_least_in_skeleton(e, v, c, w as int);
                            if c < b {
                                cg.lemma_paths_at_least_in_skeleton(e, v, c, w + 1);
                            }
                        }
                    } else {
                        assert forall|c: VertexIndex|
                            c < initializer.vertex_num && is_virtual@[c as int] implies !#[trigger] graph_reachable(e, v, c) by {
                            if graph_reachable(e, v, c) {
                                let w = choose|w: int| graph_has_path(e, v, c, w);
                                cg.lemma_skeleton_path_reachable(e, v, c, w);
                                assert(!cg.reachable(v, c));
                            }
                        }
                    }
                }
            }
            let ghost edges0 = edges@;
            let ghost vbw0 = virtual_boundary_weight@;
            let ghost v0 = v as int;
            edges.push(vertex_edges);
            virtual_boundary_weight.push(boundary);
            v = v + 1;
            proof {
                assert(is_virtual@[v0] ==> vertex_edges@.dom().is_empty() && boundary is None);
                assert(edges@ == edges0.push(vertex_edges));
                assert(virtual_boundary_weight@ == vbw0.push(boundary));
                assert forall|x: int|
                    0 <= x < v && is_virtual@[x] implies (#[trigger] edges@[x])@.dom().is_empty()
                        && virtual_boundary_weight@[x] is None by {
                    if x < v0 {
                        assert(edges@[x] == edges0[x]);
                        assert(virtual_boundary_weight@[x] == vbw0[x]);
                    } else {
                        assert(edges@[x] == vertex_edges);
                    }
                }
                assert forall|x: VertexIndex, c: VertexIndex|
                    #![trigger virtual_boundary_weight@[x as int], is_virtual@[c as int]]
                    x < v && !is_virtual@[x as int] && c < initializer.vertex_num && is_virtual@[c as int]
                        && virtual_boundary_weight@[x as int] is Some implies graph_paths_at_least(
                        initializer.weighted_edges@,
                        x,
                        c,
                        virtual_boundary_weight@[x as int]->Some_0.1 as int,
                    ) && (c < virtual_boundary_weight@[x as int]->Some_0.0 ==> graph_paths_at_least(
                        initializer.weighted_edges@,
                        x,
                        c,
                        virtual_boundary_weight@[x as int]->Some_0.1 + 1,
                    )) by {
                    if x < v0 {
                        assert(virtual_boundary_weight@[x as int] == vbw0[x as int]);
                    } else {
                        assert(virtual_boundary_weight@[x as int] == boundary);
                        assert(graph_paths_at_least(initializer.weighted_edges@, x, c, boundary->Some_0.1 as int));
                    }
                }
            }
        }
        let ghost pre_edges = edges@;
        Self::prune_edges(&mut edges, &virtual_boundary_weight);
        proof {
            assert forall|v: int|
                0 <= v < initializer.vertex_num && initializer.virtual_vertices@.contains(
                    v as VertexIndex,
                ) implies (#[trigger] edges@[v])@.dom().is_empty() && virtual_boundary_weight@[v] is None by {
                assert(is_virtual@[v]);
                assert(pre_edges[v]@.dom().is_empty());
                assert(edges@[v]@.dom() =~= Set::<VertexIndex>::empty());
            }
            let e = initializer.weighted_edges@;
            assert forall|x: VertexIndex, u: VertexIndex, w: int|
                x < initializer.vertex_num && !initializer.virtual_vertices@.contains(x) && u
                    < initializer.vertex_num && u != x && !initializer.virtual_vertices@.contains(u)
                    && #[trigger] graph_distance(e, x, u, w) && !(
                virtual_boundary_weight@[x as int] matches Some((_, b)) && virtual_boundary_weight@[u as int] matches Some((_, c)) && w > b + c) implies edges@[x as int]@.contains_key(u) by {
                assert(!is_virtual@[x as int] && !is_virtual@[u as int]);
                assert(pre_edges[x as int]@.contains_key(u));
                lemma_distance_unique(e, x, u, w, pre_edges[x as int]@[u] as int);
            }
            assert forall|x: VertexIndex|
                x < initializer.vertex_num && !initializer.virtual_vertices@.contains(x) implies (
                #[trigger] virtual_boundary_weight@[x as int] matches Some((b, w)) ==> graph_distance(
                    e,
                    x,
                    b,
                    w as int,
                )) by {
                assert(!is_virtual@[x as int]);
            }
            assert forall|x: VertexIndex, c: VertexIndex|
                #![trigger virtual_boundary_weight@[x as int], initializer.virtual_vertices@.contains(c)]
                x < initializer.vertex_num && !initializer.virtual_vertices@.contains(x) && c
                    < initializer.vertex_num && initializer.virtual_vertices@.contains(c)
                    && virtual_boundary_weight@[x as int] is Some implies graph_paths_at_least(
                    e,
                    x,
                    c,
                    virtual_boundary_weight@[x as int]->Some_0.1 as int,
                ) && (c < virtual_boundary_weight@[x as int]->Some_0.0 ==> graph_paths_at_least(
                    e,
                    x,
                    c,
                    virtual_boundary_weight@[x as int]->Some_0.1 + 1,
                )) by {
                assert(!is_virtual@[x as int] && is_virtual@[c as int]);
            }
            assert forall|x: VertexIndex, c: VertexIndex|
                x < initializer.vertex_num && !initializer.virtual_vertices@.contains(x)
                    && virtual_boundary_weight@[x as int] is None && c < initializer.vertex_num
                    && initializer.virtual_vertices@.contains(c) implies !#[trigger] graph_reachable(e, x, c) by {
                assert(!is_virtual@[x as int] && is_virtual@[c as int]);
            }
            assert forall|x: VertexIndex, u: VertexIndex|
                x < initializer.vertex_num && !initializer.virtual_vertices@.contains(x)
                    && #[trigger] edges@[x as int]@.contains_key(u) implies graph_distance(e, x, u, edges@[x as int]@[u] as int) by {
                assert(!is_virtual@[x as int]);
                assert(pre_edges[x as int]@.contains_key(u));
            }
            // a kept edge is kept from both ends, with the same weight
            assert forall|x: VertexIndex, y: VertexIndex|
                x < initializer.vertex_num && y < initializer.vertex_num && #[trigger] edges@[x as int]@.contains_key(y)
                    implies edges@[y as int]@.contains_key(x) && edges@[y as int]@[x] == edges@[x as int]@[y] by {
                let w = edges@[x as int]@[y] as int;
                assert(!initializer.virtual_vertices@.contains(x)) by {
                    if initializer.virtual_vertices@.contains(x) {
                        assert(edges@[x as int]@.dom().contains(y));
                    }
                }
                assert(graph_distance(e, x, y, w));
                assert(!Self::dominated_by_boundary(
                    edges@[x as int]@[y],
                    virtual_boundary_weight@[x as int],
                    virtual_boundary_weight@[y as int],
                ));
                lemma_distance_symmetric(e, x, y, w);
                assert(graph_distance(e, y, x, w));
                assert(edges@[y as int]@.contains_key(x));
                assert(graph_distance(e, y, x, edges@[y as int]@[x] as int));
                lemma_distance_unique(e, y, x, w, edges@[y as int]@[x] as int);
            }
        }
        PrebuiltCompleteGraph { vertex_num: initializer.vertex_num, edges, virtual_boundary_weight }
    }

    /// the weight kept for the complete graph edge from `a` to `b`, if any
    pub open spec fn edge_weight_of(&self, a: VertexIndex, b: VertexIndex) -> Option<Weight> {
        if self.edges@[a as int]@.contains_key(b) {
            Some(self.edges@[a as int]@[b])
        } else {
            None
        }
    }

    /// the edge from `a` to `b` is kept exactly when the edge from `b` to `a` is, with the same
    /// weight
    pub open spec fn edges_symmetric(&self) -> bool {
        forall|a: VertexIndex, b: VertexIndex|
            a < self.edges@.len() && b < self.edges@.len() ==> #[trigger] self.edge_weight_of(a, b) == self.edge_weight_of(b, a)
    }

    /// The weight kept between two vertices does not depend on the order in which they are given.
    pub proof fn lemma_edge_weight_symmetric(&self, a: VertexIndex, b: VertexIndex)
        requires
            self.edges_symmetric(),
            a < self.edges@.len(),
            b < self.edges@.len(),
        ensures
            self.edge_weight_of(a, b) == self.edge_weight_of(b, a),
    {
    }

    /// the weight of the complete graph edge between two vertices, if it is kept
    pub fn get_edge_weight(&self, vertex_1: VertexIndex, vertex_2: VertexIndex) -> (r: Option<Weight>)
        requires
            vertex_1 < self.edges@.len(),
        ensures
            r == self.edge_weight_of(vertex_1, vertex_2),
    {
        broadcast use vstd::std_specs::btree::group_btree_axioms;

        match self.edges[vertex_1].get(&vertex_2) {
            Some(w) => Some(*w),
            None => None,
        }
    }

    /// the nearest virtual vertex of a vertex with the weight of the path to it
    pub fn get_boundary_weight(&self, vertex_index: VertexIndex) -> (r: Option<(VertexIndex, Weight)>)
        requires
            vertex_index < self.virtual_boundary_weight@.len(),
        ensures
            r == self.virtual_boundary_weight@[vertex_index as int],
    {
        self.virtual_boundary_weight[vertex_index]
    }
}

/// an entry of the priority queue of Dijkstra's algorithm: the weight of the path found and the
/// vertex before the last one on it
#[derive(Debug, Clone, Copy, PartialEq, Eq, Structural)]
pub struct PriorityElement {
    pub weight: Weight,
    pub previous: VertexIndex,
}

impl PriorityElement {
    pub fn new(weight: Weight, previous: VertexIndex) -> (r: Self)
        ensures
            r.weight == weight,
            r.previous == previous,
    {
        Self { weight, previous }
    }
}


/// the `i`-th entry of a path from `start` follows an edge of the skeleton graph and holds its
/// weight
pub open spec fn graph_path_step(
    edges: Seq<(VertexIndex, VertexIndex, Weight)>,
    start: VertexIndex,
    path: Seq<(VertexIndex, Weight)>,
    i: int,
) -> bool {
    let prev = CompleteGraph::path_prev(start, path, i);
    &&& adjacency_of(edges, prev).contains_key(path[i].0)
    &&& path[i].1 == adjacency_of(edges, prev)[path[i].0]
}

/// some path of total weight `w` leads from `a` to `b` in the skeleton graph
pub open spec fn graph_has_path(
    edges: Seq<(VertexIndex, VertexIndex, Weight)>,
    a: VertexIndex,
    b: VertexIndex,
    w: int,
) -> bool {
    exists|path: Seq<(VertexIndex, Weight)>|
        #![trigger path_weight(path), path.last()]
        (forall|i: int| 0 <= i < path.len() ==> #[trigger] graph_path_step(edges, a, path, i))
            && path.len() >= 1 && path.last().0 == b && path_weight(path) == w
}

/// `path` walks from `a` over edges of the skeleton graph, each entry holding the vertex
/// reached and the weight of the edge into it
pub open spec fn graph_is_path(edges: Seq<(VertexIndex, VertexIndex, Weight)>, a: VertexIndex, path: Seq<(VertexIndex, Weight)>) -> bool {
    forall|i: int| 0 <= i < path.len() ==> #[trigger] graph_path_step(edges, a, path, i)
}

/// every path of the skeleton graph from `a` to `b` weighs at least `w`
pub open spec fn graph_paths_at_least(
    edges: Seq<(VertexIndex, VertexIndex, Weight)>,
    a: VertexIndex,
    b: VertexIndex,
    w: int,
) -> bool {
    forall|path: Seq<(VertexIndex, Weight)>|
        #[trigger] graph_is_path(edges, a, path) && path.len() >= 1 && path.last().0 == b ==> path_weight(path) >= w
}

/// `w` is the distance from `a` to `b` in the skeleton graph: the least weight of a path
pub open spec fn graph_distance(
    edges: Seq<(VertexIndex, VertexIndex, Weight)>,
    a: VertexIndex,
    b: VertexIndex,
    w: int,
) -> bool {
    graph_has_path(edges, a, b, w) && graph_paths_at_least(edges, a, b, w)
}

/// the distance between two vertices is unique
proof fn lemma_distance_unique(
    edges: Seq<(VertexIndex, VertexIndex, Weight)>,
    a: VertexIndex,
    b: VertexIndex,
    w1: int,
    w2: int,
)
    requires
        graph_distance(edges, a, b, w1),
        graph_distance(edges, a, b, w2),
    ensures
        w1 == w2,
{
    let p1 = choose|path: Seq<(VertexIndex, Weight)>|
        #![trigger path_weight(path), path.last()]
        (forall|i: int| 0 <= i < path.len() ==> #[trigger] graph_path_step(edges, a, path, i))
            && path.len() >= 1 && path.last().0 == b && path_weight(path) == w1;
    let p2 = choose|path: Seq<(VertexIndex, Weight)>|
        #![trigger path_weight(path), path.last()]
        (forall|i: int| 0 <= i < path.len() ==> #[trigger] graph_path_step(edges, a, path, i))
            && path.len() >= 1 && path.last().0 == b && path_weight(path) == w2;
    assert(graph_is_path(edges, a, p1));
    assert(graph_is_path(edges, a, p2));
}

/// the adjacency built from an edge list is symmetric
pub proof fn lemma_adjacency_symmetric(edges: Seq<(VertexIndex, VertexIndex, Weight)>, x: VertexIndex, y: VertexIndex)
    ensures
        adjacency_of(edges, x).contains_key(y) == adjacency_of(edges, y).contains_key(x),
        adjacency_of(edges, x).contains_key(y) ==> adjacency_of(edges, x)[y] == adjacency_of(edges, y)[x],
    decreases edges.len(),
{
    if edges.len() > 0 {
        lemma_adjacency_symmetric(edges.drop_last(), x, y);
    }
}

/// a path of the skeleton graph walked backwards is a path of the same weight
pub proof fn lemma_path_reversed(edges: Seq<(VertexIndex, VertexIndex, Weight)>, a: VertexIndex, path: Seq<(VertexIndex, Weight)>)
    requires
        graph_is_path(edges, a, path),
        path.len() >= 1,
    ensures
        exists|back: Seq<(VertexIndex, Weight)>|
            graph_is_path(edges, path.last().0, back) && back.len() >= 1 && back.last().0 == a && path_weight(back)
                == path_weight(path),
    decreases path.len(),
{
    let n = path.len() as int;
    let b = path.last().0;
    let front = path.take(n - 1);
    let prev = CompleteGraph::path_prev(a, path, n - 1);
    assert(graph_path_step(edges, a, path, n - 1));
    lemma_adjacency_symmetric(edges, prev, b);
    CompleteGraph::lemma_path_weight_last(path);
    let first = seq![(prev, path[n - 1].1)];
    if n == 1 {
        assert(graph_path_step(edges, b, first, 0));
        assert(graph_is_path(edges, b, first));
        assert(path_weight(first) == path[0].1 + path_weight(first.skip(1)));
        assert(path_weight(front) == 0);
    } else {
        assert forall|i: int| 0 <= i < front.len() implies #[trigger] graph_path_step(edges, a, front, i) by {
            assert(graph_path_step(edges, a, path, i));
            if i > 0 {
                assert(front[i - 1] == path[i - 1]);
            }
        }
        assert(graph_is_path(edges, a, front));
        lemma_path_reversed(edges, a, front);
        let rest = choose|back: Seq<(VertexIndex, Weight)>|
            graph_is_path(edges, front.last().0, back) && back.len() >= 1 && back.last().0 == a && path_weight(back)
                == path_weight(front);
        assert(front.last().0 == prev);
        let back = first + rest;
        assert forall|i: int| 0 <= i < back.len() implies #[trigger] graph_path_step(edges, b, back, i) by {
            if i > 0 {
                assert(graph_path_step(edges, prev, rest, i - 1));
                assert(back[i] == rest[i - 1]);
                if i > 1 {
                    assert(back[i - 1] == rest[i - 2]);
                }
            }
        }
        assert(back.skip(1) =~= rest);
        assert(path_weight(back) == back[0].1 + path_weight(back.skip(1)));
        assert(back.last() == rest.last());
        assert(graph_is_path(edges, b, back));
    }
}

/// distances in the skeleton graph are symmetric
pub proof fn lemma_distance_symmetric(edges: Seq<(VertexIndex, VertexIndex, Weight)>, a: VertexIndex, b: VertexIndex, w: int)
    requires
        graph_distance(edges, a, b, w),
    ensures
        graph_distance(edges, b, a, w),
{
    let p = choose|path: Seq<(VertexIndex, Weight)>|
        #![trigger path_weight(path), path.last()]
        (forall|i: int| 0 <= i < path.len() ==> #[trigger] graph_path_step(edges, a, path, i))
            && path.len() >= 1 && path.last().0 == b && path_weight(path) == w;
    assert(graph_is_path(edges, a, p));
    lemma_path_reversed(edges, a, p);
    let back = choose|back: Seq<(VertexIndex, Weight)>|
        graph_is_path(edges, b, back) && back.len() >= 1 && back.last().0 == a && path_weight(back) == w;
    assert(path_weight(back) == w && back.last() == back.last());
    assert(graph_has_path(edges, b, a, w));
    assert forall|path: Seq<(VertexIndex, Weight)>|
        #[trigger] graph_is_path(edges, b, path) && path.len() >= 1 && path.last().0 == a implies path_weight(path) >= w by {
        lemma_path_reversed(edges, b, path);
        let fwd = choose|fwd: Seq<(VertexIndex, Weight)>|
            graph_is_path(edges, a, fwd) && fwd.len() >= 1 && fwd.last().0 == b && path_weight(fwd) == path_weight(path);
        assert(graph_is_path(edges, a, fwd));
    }
}

/// the keys of a map listed in increasing order are increasing integers
pub(crate) proof fn lemma_keys_increasing(s: Seq<VertexIndex>)
    requires
        vstd::std_specs::btree::increasing_seq(s),
    ensures
        forall|i: int, j: int| 0 <= i < j < s.len() ==> s[i] < s[j],
{
    broadcast use vstd::laws_cmp::group_laws_cmp;
    broadcast use vstd::std_specs::btree::axiom_increasing_seq_meaning;

    assert(vstd::laws_cmp::obeys_cmp::<VertexIndex>());
    assert(vstd::std_specs::btree::increasing_seq(s));
    assert forall|i: int, j: int| 0 <= i < j < s.len() implies s[i] < s[j] by {
        assert(vstd::std_specs::cmp::OrdSpec::cmp_spec(&s[i], &s[j]) is Less);
    }
}

/// the keys of a map of vertices are ordered as integers
pub(crate) proof fn lemma_vertex_keys_ordered()
    ensures
        vstd::std_specs::btree::key_obeys_cmp_spec::<VertexIndex>(),
{
    broadcast use vstd::laws_cmp::group_laws_cmp;
    broadcast use vstd::std_specs::btree::axiom_key_obeys_cmp_spec_meaning;

    assert(vstd::laws_cmp::obeys_cmp::<VertexIndex>());
}

/// some walk leads from `a` to `b` in the skeleton graph
pub open spec fn graph_reachable(edges: Seq<(VertexIndex, VertexIndex, Weight)>, a: VertexIndex, b: VertexIndex) -> bool {
    exists|w: int| graph_has_path(edges, a, b, w)
}

impl CompleteGraph {
    /// the adjacency of every vertex is the one built from `edges`
    pub open spec fn built_from(&self, edges: Seq<(VertexIndex, VertexIndex, Weight)>) -> bool {
        forall|v: int| 0 <= v < self.vertex_num ==> #[trigger] self.vertices@[v].edges@ == adjacency_of(
            edges,
            v as VertexIndex,
        )
    }

    /// a path of this graph is a path of the skeleton graph it was built from
    pub proof fn lemma_has_path_in_skeleton(
        &self,
        edges: Seq<(VertexIndex, VertexIndex, Weight)>,
        a: VertexIndex,
        b: VertexIndex,
        w: int,
    )
        requires
            self.wf(),
            self.built_from(edges),
            a < self.vertex_num,
            self.has_path(a, b, w),
        ensures
            graph_has_path(edges, a, b, w),
    {
        let path = choose|path: Seq<(VertexIndex, Weight)>| #[trigger]
            self.is_weighted_path(a, path) && path.len() >= 1 && path.last().0 == b && path_weight(
                path,
            ) == w;
        self.lemma_weighted_path_in_skeleton(edges, a, path);
    }

    /// a weighted path of this graph is a path of the skeleton graph it was built from
    pub proof fn lemma_weighted_path_in_skeleton(
        &self,
        edges: Seq<(VertexIndex, VertexIndex, Weight)>,
        a: VertexIndex,
        path: Seq<(VertexIndex, Weight)>,
    )
        requires
            self.wf(),
            self.built_from(edges),
            a < self.vertex_num,
            self.is_weighted_path(a, path),
        ensures
            forall|i: int| 0 <= i < path.len() ==> #[trigger] graph_path_step(edges, a, path, i),
    {
        self.lemma_path_in_range(a, path, path.len() as int);
        assert forall|i: int| 0 <= i < path.len() implies #[trigger] graph_path_step(edges, a, path, i) by {
            assert(self.path_step(a, path, i));
            let prev = Self::path_prev(a, path, i);
            assert(prev < self.vertex_num);
        }
    }

    /// every vertex of a path from a vertex of the graph is a vertex of the graph
    pub proof fn lemma_path_in_range(&self, a: VertexIndex, path: Seq<(VertexIndex, Weight)>, k: int)
        requires
            self.wf(),
            a < self.vertex_num,
            self.is_weighted_path(a, path),
            0 <= k <= path.len(),
        ensures
            forall|i: int| 0 <= i < k ==> (#[trigger] path[i]).0 < self.vertex_num,
        decreases k,
    {
        if k > 0 {
            self.lemma_path_in_range(a, path, k - 1);
            let prev = Self::path_prev(a, path, k - 1);
            assert(self.path_step(a, path, k - 1));
            assert(self.vertex_wf(prev as int));
        }
    }

    /// a path of the skeleton graph this graph was built from is a weighted path of this graph
    pub proof fn lemma_skeleton_path_weighted(
        &self,
        edges: Seq<(VertexIndex, VertexIndex, Weight)>,
        a: VertexIndex,
        path: Seq<(VertexIndex, Weight)>,
    )
        requires
            self.wf(),
            self.built_from(edges),
            edges_valid(self.vertex_num, edges),
            a < self.vertex_num,
            graph_is_path(edges, a, path),
        ensures
            self.is_weighted_path(a, path),
    {
        assert forall|i: int| 0 <= i < path.len() implies #[trigger] self.path_step(a, path, i) by {
            if i > 0 {
                assert(graph_path_step(edges, a, path, i - 1));
                Self::lemma_adjacency_of_valid(edges, self.vertex_num, Self::path_prev(a, path, i - 1));
            }
            assert(graph_path_step(edges, a, path, i));
        }
    }

    /// a bound on the weighted paths of this graph bounds the paths of its skeleton graph
    pub proof fn lemma_paths_at_least_in_skeleton(
        &self,
        edges: Seq<(VertexIndex, VertexIndex, Weight)>,
        a: VertexIndex,
        b: VertexIndex,
        w: int,
    )
        requires
            self.wf(),
            self.built_from(edges),
            edges_valid(self.vertex_num, edges),
            a < self.vertex_num,
            self.paths_at_least(a, b, w),
        ensures
            graph_paths_at_least(edges, a, b, w),
    {
        assert forall|path: Seq<(VertexIndex, Weight)>|
            #[trigger] graph_is_path(edges, a, path) && path.len() >= 1 && path.last().0 == b implies path_weight(path) >= w by {
            self.lemma_skeleton_path_weighted(edges, a, path);
        }
    }

    /// a closed tree holds the end of every weighted path from its source
    pub proof fn lemma_closed_holds_path(
        &self,
        source: VertexIndex,
        tree: Map<VertexIndex, (VertexIndex, Weight)>,
        path: Seq<(VertexIndex, Weight)>,
        k: int,
    )
        requires
            self.is_closed(source, tree),
            self.is_weighted_path(source, path),
            0 <= k < path.len(),
        ensures
            path[k].0 == source || tree.contains_key(path[k].0),
        decreases k,
    {
        if k > 0 {
            self.lemma_closed_holds_path(source, tree, path, k - 1);
        }
        assert(self.path_step(source, path, k));
    }

    /// a path of the skeleton graph this graph was built from is a walk of this graph
    pub proof fn lemma_skeleton_path_reachable(
        &self,
        edges: Seq<(VertexIndex, VertexIndex, Weight)>,
        a: VertexIndex,
        b: VertexIndex,
        w: int,
    )
        requires
            self.wf(),
            self.built_from(edges),
            edges_valid(self.vertex_num, edges),
            a < self.vertex_num,
            graph_has_path(edges, a, b, w),
        ensures
            self.reachable(a, b),
    {
        let path = choose|path: Seq<(VertexIndex, Weight)>|
            #![trigger path_weight(path), path.last()]
            (forall|i: int| 0 <= i < path.len() ==> #[trigger] graph_path_step(edges, a, path, i))
                && path.len() >= 1 && path.last().0 == b && path_weight(path) == w;
        let walk = seq![a] + path.map_values(|e: (VertexIndex, Weight)| e.0);
        assert forall|i: int| 0 <= i < walk.len() implies #[trigger] walk[i] < self.vertex_num by {
            if i > 0 {
                assert(graph_path_step(edges, a, path, i - 1));
                let prev = Self::path_prev(a, path, i - 1);
                Self::lemma_adjacency_of_valid(edges, self.vertex_num, prev);
                assert(walk[i] == path[i - 1].0);
            }
        }
        assert forall|i: int| 0 <= i < walk.len() - 1 implies #[trigger] self.walk_step(walk, i) by {
            assert(graph_path_step(edges, a, path, i));
            assert(walk[i + 1] == path[i].0);
            assert(walk[i] == Self::path_prev(a, path, i));
            assert(walk[i] < self.vertex_num);
        }
        assert(walk.last() == path.last().0);
        assert(self.is_walk(walk) && walk[0] == a && walk.last() == b);
    }
}

} // verus!
