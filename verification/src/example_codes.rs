//! Example Decoding
//!
//! Abstract decoding graphs of a few quantum error-correcting codes and the operations that load
//! errors and syndromes into them. The weights of the edges are plain integers here: turning
//! error probabilities into weights and drawing random errors happen outside the library.
//!

use crate::util::{
    build_old_to_new, is_permutation, EdgeIndex, SolverInitializer, SyndromePattern, VertexIndex, VertexNum, Weight,
};
use vstd::prelude::*;

verus! {

/// Vertex corresponds to a stabilizer measurement bit
#[derive(Debug)]
pub struct CodeVertex {
    /// neighbor edges helps to set find individual edge
    pub neighbor_edges: Vec<EdgeIndex>,
    /// virtual vertex won't report measurement results
    pub is_virtual: bool,
    /// whether it's a defect, note that virtual nodes should NOT be defects
    pub is_defect: bool,
}

impl CodeVertex {
    /// a copy of this vertex
    pub fn duplicate(&self) -> (r: Self)
        ensures
            r.neighbor_edges@ == self.neighbor_edges@,
            r.is_virtual == self.is_virtual,
            r.is_defect == self.is_defect,
    {
        let mut neighbor_edges: Vec<EdgeIndex> = Vec::new();
        let mut i: usize = 0;
        while i < self.neighbor_edges.len()
            invariant
                i <= self.neighbor_edges@.len(),
                neighbor_edges@ == self.neighbor_edges@.take(i as int),
            decreases self.neighbor_edges@.len() - i,
        {
            neighbor_edges.push(self.neighbor_edges[i]);
            i = i + 1;
            proof {
                assert(neighbor_edges@ =~= self.neighbor_edges@.take(i as int));
            }
        }
        proof {
            assert(self.neighbor_edges@.take(self.neighbor_edges@.len() as int) =~= self.neighbor_edges@);
        }
        CodeVertex { neighbor_edges, is_virtual: self.is_virtual, is_defect: self.is_defect }
    }
}

/// Edge flips the measurement result of two vertices
#[derive(Debug, Clone, Copy)]
pub struct CodeEdge {
    /// the two vertices incident to this edge
    pub vertices: (VertexIndex, VertexIndex),
    /// the integer weight of this edge
    pub half_weight: Weight,
    /// whether this edge is erased
    pub is_erasure: bool,
}

impl CodeEdge {
    pub fn new(a: VertexIndex, b: VertexIndex) -> (r: Self)
        ensures
            r.vertices == (a, b),
            r.half_weight == 0,
            !r.is_erasure,
    {
        CodeEdge { vertices: (a, b), half_weight: 0, is_erasure: false }
    }
}

/// a decoding graph with the current errors: its vertices and its edges
#[derive(Debug)]
pub struct ExampleCode {
    pub vertices: Vec<CodeVertex>,
    pub edges: Vec<CodeEdge>,
}

/// the edges incident to vertex `v`, in the order of the edges; an edge from `v` to itself is
/// listed twice
pub open spec fn incident_edges(edges: Seq<CodeEdge>, v: int) -> Seq<EdgeIndex>
    decreases edges.len(),
{
    if edges.len() == 0 {
        Seq::empty()
    } else {
        let last = (edges.len() - 1) as EdgeIndex;
        let before = incident_edges(edges.drop_last(), v);
        let first = if edges.last().vertices.0 == v {
            before.push(last)
        } else {
            before
        };
        if edges.last().vertices.1 == v {
            first.push(last)
        } else {
            first
        }
    }
}

/// the indices of the vertices marked by `flag`, in increasing order
pub open spec fn marked_vertices(vertices: Seq<CodeVertex>, flag: spec_fn(CodeVertex) -> bool) -> Seq<VertexIndex>
    decreases vertices.len(),
{
    if vertices.len() == 0 {
        Seq::empty()
    } else {
        let before = marked_vertices(vertices.drop_last(), flag);
        if flag(vertices.last()) {
            before.push((vertices.len() - 1) as VertexIndex)
        } else {
            before
        }
    }
}

/// the indices of the erased edges, in increasing order
pub open spec fn erased_edges(edges: Seq<CodeEdge>) -> Seq<EdgeIndex>
    decreases edges.len(),
{
    if edges.len() == 0 {
        Seq::empty()
    } else {
        let before = erased_edges(edges.drop_last());
        if edges.last().is_erasure {
            before.push((edges.len() - 1) as EdgeIndex)
        } else {
            before
        }
    }
}

/// the vertex is virtual
pub open spec fn virtual_flag(v: CodeVertex) -> bool {
    v.is_virtual
}

/// the vertex is a defect
pub open spec fn defect_flag(v: CodeVertex) -> bool {
    v.is_defect
}

/// whether vertex `v` ends up flipped an odd number of times when an error occurs on each listed
/// edge in turn, each edge flipping both of its ends
pub open spec fn odd_flips(edges: Seq<CodeEdge>, indices: Seq<EdgeIndex>, v: int) -> bool
    decreases indices.len(),
{
    if indices.len() == 0 {
        false
    } else {
        let e = edges[indices.last() as int];
        odd_flips(edges, indices.drop_last(), v) != (e.vertices.0 == v) != (e.vertices.1 == v)
    }
}

/// the edges of one row of `d` data qubits: a chain `bias, bias + 1, ..., bias + d - 1` and the
/// edge from `bias` to the boundary vertex `bias + d`
pub open spec fn row_edges(bias: int, d: int) -> Seq<(int, int)> {
    Seq::new((d - 1) as nat, |i: int| (bias + i, bias + i + 1)).push((bias, bias + d))
}

/// the `d - 1` edges joining the non-boundary vertices of one row to those of the next row,
/// `step` vertices further
pub open spec fn vertical_edges(bias: int, d: int, step: int) -> Seq<(int, int)> {
    Seq::new((d - 1) as nat, |i: int| (bias + i, bias + i + step))
}

/// the edges of the first `rows` rows of the planar code of distance `d`, each row holding
/// `d + 1` vertices
pub open spec fn planar_edges(d: int, rows: nat) -> Seq<(int, int)>
    decreases rows,
{
    if rows == 0 {
        Seq::empty()
    } else {
        let row = rows - 1;
        let bias = row * (d + 1);
        let with_row = planar_edges(d, (rows - 1) as nat) + row_edges(bias, d);
        if row + 1 < d {
            with_row + vertical_edges(bias, d, d + 1)
        } else {
            with_row
        }
    }
}

/// the edges of the first `rows` rows of one layer of the planar code of distance `d` whose first
/// vertex is `base`
pub open spec fn layer_edges(base: int, d: int, rows: nat) -> Seq<(int, int)>
    decreases rows,
{
    if rows == 0 {
        Seq::empty()
    } else {
        let row = rows - 1;
        let bias = base + row * (d + 1);
        let with_row = layer_edges(base, d, (rows - 1) as nat) + row_edges(bias, d);
        if row + 1 < d {
            with_row + vertical_edges(bias, d, d + 1)
        } else {
            with_row
        }
    }
}

/// the edges joining the non-boundary vertices of the first `rows` rows of the layer at `base`
/// to the same vertices of the next layer, `step` vertices further
pub open spec fn between_layers(base: int, d: int, step: int, rows: nat) -> Seq<(int, int)>
    decreases rows,
{
    if rows == 0 {
        Seq::empty()
    } else {
        between_layers(base, d, step, (rows - 1) as nat) + vertical_edges(base + (rows - 1) * (d + 1), d, step)
    }
}

/// the edges of the first `layers` of the `td` layers of the phenomenological planar code of
/// distance `d`, each layer a planar code joined to the next layer
pub open spec fn phenomenological_edges(d: int, td: int, layers: nat) -> Seq<(int, int)>
    decreases layers,
{
    if layers == 0 {
        Seq::empty()
    } else {
        let t = layers - 1;
        let t_bias = t * ((d + 1) * d);
        let with_layer = phenomenological_edges(d, td, (layers - 1) as nat) + layer_edges(t_bias, d, d as nat);
        if t + 1 < td {
            with_layer + between_layers(t_bias, d, (d + 1) * d, d as nat)
        } else {
            with_layer
        }
    }
}

/// every pair of `pairs` joins vertices below `n`
pub open spec fn pairs_below(pairs: Seq<(int, int)>, n: int) -> bool {
    forall|e: int| 0 <= e < pairs.len() ==> 0 <= (#[trigger] pairs[e]).0 < n && 0 <= pairs[e].1 < n
}

/// `edges` are new edges, without weight or erasure, joining the pairs of vertices `pairs`
pub open spec fn fresh_edges(edges: Seq<CodeEdge>, pairs: Seq<(int, int)>) -> bool {
    &&& edges.len() == pairs.len()
    &&& forall|e: int|
        0 <= e < edges.len() ==> {
            &&& (#[trigger] edges[e]).vertices.0 == pairs[e].0
            &&& edges[e].vertices.1 == pairs[e].1
            &&& edges[e].half_weight == 0
            &&& !edges[e].is_erasure
        }
}

/// joining two lists of pairs below `n` keeps them below `n`
proof fn lemma_pairs_below_add(a: Seq<(int, int)>, b: Seq<(int, int)>, n: int)
    requires
        pairs_below(a, n),
        pairs_below(b, n),
    ensures
        pairs_below(a + b, n),
{
    assert forall|e: int| 0 <= e < (a + b).len() implies 0 <= (#[trigger] (a + b)[e]).0 < n && 0 <= (a + b)[e].1 < n by {
        if e < a.len() {
            assert((a + b)[e] == a[e]);
        } else {
            assert((a + b)[e] == b[e - a.len()]);
        }
    }
}

/// the edges of a row starting at `bias` stay below `n` when the row does
proof fn lemma_row_below(bias: int, d: int, n: int)
    requires
        d >= 1,
        bias >= 0,
        bias + d < n,
    ensures
        pairs_below(row_edges(bias, d), n),
{
    assert forall|e: int| 0 <= e < row_edges(bias, d).len() implies 0 <= (#[trigger] row_edges(bias, d)[e]).0 < n
        && 0 <= row_edges(bias, d)[e].1 < n by {
        if e < d - 1 {
            assert(row_edges(bias, d)[e] == (bias + e, bias + e + 1));
        }
    }
}

/// the vertical edges from a row starting at `bias` stay below `n` when their far ends do
proof fn lemma_vertical_below(bias: int, d: int, step: int, n: int)
    requires
        d >= 1,
        bias >= 0,
        step >= 0,
        bias + d - 1 + step <= n,
    ensures
        pairs_below(vertical_edges(bias, d, step), n),
{
}

/// append the edges of one row, see `row_edges`
fn push_row_edges(edges: &mut Vec<CodeEdge>, bias: VertexIndex, d: VertexNum, Ghost(pairs): Ghost<Seq<(int, int)>>)
    requires
        d >= 1,
        bias + d <= VertexIndex::MAX,
        fresh_edges(old(edges)@, pairs),
    ensures
        fresh_edges(final(edges)@, pairs + row_edges(bias as int, d as int)),
        final(edges)@.len() >= old(edges)@.len(),
        forall|e: int| 0 <= e < old(edges)@.len() ==> #[trigger] final(edges)@[e] == old(edges)@[e],
{
    let ghost row = row_edges(bias as int, d as int);
    let mut i: usize = 0;
    while i < d - 1
        invariant
            d >= 1,
            bias + d <= VertexIndex::MAX,
            i <= d - 1,
            fresh_edges(edges@, pairs + row.take(i as int)),
            edges@.len() >= old(edges)@.len(),
            forall|e: int| 0 <= e < old(edges)@.len() ==> #[trigger] edges@[e] == old(edges)@[e],
            row == row_edges(bias as int, d as int),
        decreases d - 1 - i,
    {
        edges.push(CodeEdge::new(bias + i, bias + i + 1));
        proof {
            assert(pairs + row.take(i + 1) =~= (pairs + row.take(i as int)).push(row[i as int]));
        }
        i = i + 1;
    }
    edges.push(CodeEdge::new(bias, bias + d));
    proof {
        assert(row.take(d - 1) =~= row.drop_last());
        assert(pairs + row =~= (pairs + row.take(d - 1)).push(row[d - 1]));
    }
}

/// append the edges to the next row, see `vertical_edges`
fn push_vertical_edges(
    edges: &mut Vec<CodeEdge>,
    bias: VertexIndex,
    d: VertexNum,
    step: VertexNum,
    Ghost(pairs): Ghost<Seq<(int, int)>>,
)
    requires
        d >= 1,
        bias + d + step <= VertexIndex::MAX,
        fresh_edges(old(edges)@, pairs),
    ensures
        fresh_edges(final(edges)@, pairs + vertical_edges(bias as int, d as int, step as int)),
        final(edges)@.len() >= old(edges)@.len(),
        forall|e: int| 0 <= e < old(edges)@.len() ==> #[trigger] final(edges)@[e] == old(edges)@[e],
{
    let ghost column = vertical_edges(bias as int, d as int, step as int);
    let mut i: usize = 0;
    while i < d - 1
        invariant
            d >= 1,
            bias + d + step <= VertexIndex::MAX,
            i <= d - 1,
            fresh_edges(edges@, pairs + column.take(i as int)),
            edges@.len() >= old(edges)@.len(),
            forall|e: int| 0 <= e < old(edges)@.len() ==> #[trigger] edges@[e] == old(edges)@[e],
            column == vertical_edges(bias as int, d as int, step as int),
        decreases d - 1 - i,
    {
        edges.push(CodeEdge::new(bias + i, bias + i + step));
        proof {
            assert(pairs + column.take(i + 1) =~= (pairs + column.take(i as int)).push(column[i as int]));
        }
        i = i + 1;
    }
    proof {
        assert(column.take(d - 1) =~= column);
    }
}

impl ExampleCode {
    /// every edge joins two vertices of the graph
    pub open spec fn edges_in_range(&self) -> bool {
        forall|e: int|
            0 <= e < self.edges@.len() ==> (#[trigger] self.edges@[e]).vertices.0 < self.vertices@.len()
                && self.edges@[e].vertices.1 < self.vertices@.len()
    }

    /// the two ends and the weight of every edge, the weight being twice the half weight
    pub open spec fn weighted_edges(&self) -> Seq<(VertexIndex, VertexIndex, Weight)> {
        self.edges@.map_values(|e: CodeEdge| (e.vertices.0, e.vertices.1, (2 * e.half_weight) as Weight))
    }

    /// get the number of vertices
    pub fn vertex_num(&self) -> (r: VertexNum)
        ensures
            r == self.vertices@.len(),
    {
        self.vertices.len()
    }

    /// create `vertex_num` vertices, neither virtual nor defect, each with its incident edges
    pub fn fill_vertices(&mut self, vertex_num: VertexNum)
        requires
            forall|e: int|
                0 <= e < old(self).edges@.len() ==> (#[trigger] old(self).edges@[e]).vertices.0 < vertex_num
                    && old(self).edges@[e].vertices.1 < vertex_num,
        ensures
            final(self).edges@ == old(self).edges@,
            final(self).vertices@.len() == vertex_num,
            final(self).edges_in_range(),
            forall|v: int|
                0 <= v < vertex_num ==> {
                    &&& !(#[trigger] final(self).vertices@[v]).is_virtual
                    &&& !final(self).vertices@[v].is_defect
                    &&& final(self).vertices@[v].neighbor_edges@ == incident_edges(final(self).edges@, v)
                },
    {
        let mut vertices: Vec<CodeVertex> = Vec::new();
        let mut v: usize = 0;
        while v < vertex_num
            invariant
                v <= vertex_num,
                vertices@.len() == v,
                forall|u: int|
                    0 <= u < v ==> {
                        &&& !(#[trigger] vertices@[u]).is_virtual
                        &&& !vertices@[u].is_defect
                        &&& vertices@[u].neighbor_edges@.len() == 0
                    },
            decreases vertex_num - v,
        {
            vertices.push(CodeVertex { neighbor_edges: Vec::new(), is_virtual: false, is_defect: false });
            v = v + 1;
        }
        let mut e: usize = 0;
        while e < self.edges.len()
            invariant
                e <= self.edges@.len(),
                self.edges@ == old(self).edges@,
                forall|f: int|
                    0 <= f < self.edges@.len() ==> (#[trigger] self.edges@[f]).vertices.0 < vertex_num
                        && self.edges@[f].vertices.1 < vertex_num,
                vertices@.len() == vertex_num,
                forall|u: int|
                    0 <= u < vertex_num ==> {
                        &&& !(#[trigger] vertices@[u]).is_virtual
                        &&& !vertices@[u].is_defect
                        &&& vertices@[u].neighbor_edges@ == incident_edges(self.edges@.take(e as int), u)
                    },
            decreases self.edges@.len() - e,
        {
            let (vertex_1, vertex_2) = self.edges[e].vertices;
            let ghost before = vertices@;
            let mut vertex = vertices.remove(vertex_1);
            vertex.neighbor_edges.push(e);
            vertices.insert(vertex_1, vertex);
            let ghost middle = vertices@;
            let mut vertex = vertices.remove(vertex_2);
            vertex.neighbor_edges.push(e);
            vertices.insert(vertex_2, vertex);
            proof {
                let next = self.edges@.take(e + 1);
                assert(next.drop_last() =~= self.edges@.take(e as int));
                assert(next.last() == self.edges@[e as int]);
                assert forall|u: int| 0 <= u < vertex_num implies {
                    &&& !(#[trigger] vertices@[u]).is_virtual
                    &&& !vertices@[u].is_defect
                    &&& vertices@[u].neighbor_edges@ == incident_edges(next, u)
                } by {
                    if u != vertex_2 {
                        assert(vertices@[u] == middle[u]);
                    }
                    if u != vertex_1 {
                        assert(middle[u] == before[u]);
                    }
                }
            }
            e = e + 1;
        }
        proof {
            assert(self.edges@.take(self.edges@.len() as int) =~= self.edges@);
        }
        self.vertices = vertices;
    }

    /// the decoding graph given to the solvers: every edge with twice its half weight, and the
    /// virtual vertices in increasing order
    pub fn get_initializer(&self) -> (r: SolverInitializer)
        requires
            forall|e: int|
                0 <= e < self.edges@.len() ==> 2 * (#[trigger] self.edges@[e]).half_weight <= Weight::MAX && 2
                    * self.edges@[e].half_weight >= Weight::MIN,
        ensures
            r.vertex_num == self.vertices@.len(),
            r.weighted_edges@ == self.weighted_edges(),
            r.virtual_vertices@ == marked_vertices(self.vertices@, |v: CodeVertex| virtual_flag(v)),
    {
        let mut weighted_edges: Vec<(VertexIndex, VertexIndex, Weight)> = Vec::new();
        let mut e: usize = 0;
        while e < self.edges.len()
            invariant
                e <= self.edges@.len(),
                forall|f: int|
                    0 <= f < self.edges@.len() ==> 2 * (#[trigger] self.edges@[f]).half_weight <= Weight::MAX && 2
                        * self.edges@[f].half_weight >= Weight::MIN,
                weighted_edges@ == self.weighted_edges().take(e as int),
            decreases self.edges@.len() - e,
        {
            let edge = self.edges[e];
            weighted_edges.push((edge.vertices.0, edge.vertices.1, edge.half_weight * 2));
            e = e + 1;
            proof {
                assert(weighted_edges@ =~= self.weighted_edges().take(e as int));
            }
        }
        proof {
            assert(self.weighted_edges().take(self.edges@.len() as int) =~= self.weighted_edges());
        }
        let mut virtual_vertices: Vec<VertexIndex> = Vec::new();
        let mut v: usize = 0;
        while v < self.vertices.len()
            invariant
                v <= self.vertices@.len(),
                virtual_vertices@ == marked_vertices(self.vertices@.take(v as int), |x: CodeVertex| virtual_flag(x)),
            decreases self.vertices@.len() - v,
        {
            if self.vertices[v].is_virtual {
                virtual_vertices.push(v);
            }
            v = v + 1;
            proof {
                let next = self.vertices@.take(v as int);
                assert(next.drop_last() =~= self.vertices@.take(v - 1));
            }
        }
        proof {
            assert(self.vertices@.take(self.vertices@.len() as int) =~= self.vertices@);
        }
        SolverInitializer::new(self.vertices.len(), weighted_edges, virtual_vertices)
    }

    /// whether vertex `v` is virtual
    pub fn is_virtual(&self, vertex_idx: usize) -> (r: bool)
        requires
            vertex_idx < self.vertices@.len(),
        ensures
            r == self.vertices@[vertex_idx as int].is_virtual,
    {
        self.vertices[vertex_idx].is_virtual
    }

    /// whether vertex `v` is currently a defect
    pub fn is_defect(&self, vertex_idx: usize) -> (r: bool)
        requires
            vertex_idx < self.vertices@.len(),
        ensures
            r == self.vertices@[vertex_idx as int].is_defect,
    {
        self.vertices[vertex_idx].is_defect
    }

    /// mark vertex `v` as a defect or not, leaving everything else as it is
    fn set_vertex_defect(&mut self, v: usize, is_defect: bool)
        requires
            v < old(self).vertices@.len(),
        ensures
            final(self).edges@ == old(self).edges@,
            final(self).vertices@.len() == old(self).vertices@.len(),
            final(self).vertices@[v as int].is_defect == is_defect,
            final(self).vertices@[v as int].is_virtual == old(self).vertices@[v as int].is_virtual,
            final(self).vertices@[v as int].neighbor_edges@ == old(self).vertices@[v as int].neighbor_edges@,
            forall|u: int| 0 <= u < final(self).vertices@.len() && u != v ==> #[trigger] final(self).vertices@[u] == old(self).vertices@[u],
    {
        let mut vertex = self.vertices.remove(v);
        vertex.is_defect = is_defect;
        self.vertices.insert(v, vertex);
    }

    /// mark edge `e` as erased or not, leaving everything else as it is
    fn set_edge_erasure(&mut self, e: usize, is_erasure: bool)
        requires
            e < old(self).edges@.len(),
        ensures
            final(self).vertices@ == old(self).vertices@,
            final(self).edges@ == old(self).edges@.update(e as int, CodeEdge { is_erasure, ..old(self).edges@[e as int] }),
    {
        let mut edge = self.edges[e];
        edge.is_erasure = is_erasure;
        self.edges.set(e, edge);
    }

    /// set the defect vertices: exactly the listed vertices become defects
    pub fn set_defect_vertices(&mut self, defect_vertices: &[VertexIndex])
        requires
            forall|i: int| 0 <= i < defect_vertices@.len() ==> #[trigger] defect_vertices@[i] < old(self).vertices@.len(),
        ensures
            final(self).edges@ == old(self).edges@,
            final(self).vertices@.len() == old(self).vertices@.len(),
            forall|v: int|
                0 <= v < final(self).vertices@.len() ==> {
                    &&& (#[trigger] final(self).vertices@[v]).is_defect == defect_vertices@.contains(v as VertexIndex)
                    &&& final(self).vertices@[v].is_virtual == old(self).vertices@[v].is_virtual
                    &&& final(self).vertices@[v].neighbor_edges@ == old(self).vertices@[v].neighbor_edges@
                },
    {
        let ghost start = self.vertices@;
        let n: usize = self.vertices.len();
        let mut v: usize = 0;
        while v < self.vertices.len()
            invariant
                v <= self.vertices@.len(),
                self.vertices@.len() == n,
                self.vertices@.len() == start.len(),
                self.edges@ == old(self).edges@,
                start == old(self).vertices@,
                forall|u: int|
                    0 <= u < self.vertices@.len() ==> {
                        &&& (#[trigger] self.vertices@[u]).is_defect == (u >= v && start[u].is_defect)
                        &&& self.vertices@[u].is_virtual == start[u].is_virtual
                        &&& self.vertices@[u].neighbor_edges@ == start[u].neighbor_edges@
                    },
            decreases self.vertices@.len() - v,
        {
            self.set_vertex_defect(v, false);
            v = v + 1;
        }
        let mut i: usize = 0;
        while i < defect_vertices.len()
            invariant
                i <= defect_vertices@.len(),
                self.vertices@.len() == start.len(),
                self.vertices@.len() == n,
                self.edges@ == old(self).edges@,
                forall|j: int| 0 <= j < defect_vertices@.len() ==> #[trigger] defect_vertices@[j] < start.len(),
                forall|u: int|
                    0 <= u < self.vertices@.len() ==> {
                        &&& (#[trigger] self.vertices@[u]).is_defect == defect_vertices@.take(i as int).contains(u as VertexIndex)
                        &&& self.vertices@[u].is_virtual == start[u].is_virtual
                        &&& self.vertices@[u].neighbor_edges@ == start[u].neighbor_edges@
                    },
            decreases defect_vertices@.len() - i,
        {
            let d = defect_vertices[i];
            self.set_vertex_defect(d, true);
            proof {
                let next = defect_vertices@.take(i + 1);
                assert(next =~= defect_vertices@.take(i as int).push(d));
                assert forall|u: int| 0 <= u < self.vertices@.len() implies
                    (#[trigger] self.vertices@[u]).is_defect == next.contains(u as VertexIndex) by {
                    assert(next[i as int] == d);
                    assert((u as VertexIndex) as int == u);
                    if u != d {
                        if next.contains(u as VertexIndex) {
                            let k = choose|k: int| 0 <= k < next.len() && next[k] == u as VertexIndex;
                            assert(k < i);
                            assert(defect_vertices@.take(i as int)[k] == u as VertexIndex);
                        }
                    } else {
                        assert(next[i as int] == d);
                    }
                }
            }
            i = i + 1;
        }
        proof {
            assert(defect_vertices@.take(defect_vertices@.len() as int) =~= defect_vertices@);
        }
    }

    /// set the erased edges: exactly the listed edges become erased
    pub fn set_erasures(&mut self, erasures: &[EdgeIndex])
        requires
            forall|i: int| 0 <= i < erasures@.len() ==> #[trigger] erasures@[i] < old(self).edges@.len(),
        ensures
            final(self).vertices@ == old(self).vertices@,
            final(self).edges@.len() == old(self).edges@.len(),
            forall|e: int|
                0 <= e < final(self).edges@.len() ==> {
                    &&& (#[trigger] final(self).edges@[e]).is_erasure == erasures@.contains(e as EdgeIndex)
                    &&& final(self).edges@[e].vertices == old(self).edges@[e].vertices
                    &&& final(self).edges@[e].half_weight == old(self).edges@[e].half_weight
                },
    {
        let ghost start = self.edges@;
        let n: usize = self.edges.len();
        let mut e: usize = 0;
        while e < self.edges.len()
            invariant
                e <= self.edges@.len(),
                self.edges@.len() == n,
                self.edges@.len() == start.len(),
                self.vertices@ == old(self).vertices@,
                start == old(self).edges@,
                forall|f: int|
                    0 <= f < self.edges@.len() ==> {
                        &&& (#[trigger] self.edges@[f]).is_erasure == (f >= e && start[f].is_erasure)
                        &&& self.edges@[f].vertices == start[f].vertices
                        &&& self.edges@[f].half_weight == start[f].half_weight
                    },
            decreases self.edges@.len() - e,
        {
            self.set_edge_erasure(e, false);
            e = e + 1;
        }
        let mut i: usize = 0;
        while i < erasures.len()
            invariant
                i <= erasures@.len(),
                self.edges@.len() == start.len(),
                self.edges@.len() == n,
                self.vertices@ == old(self).vertices@,
                forall|j: int| 0 <= j < erasures@.len() ==> #[trigger] erasures@[j] < start.len(),
                forall|f: int|
                    0 <= f < self.edges@.len() ==> {
                        &&& (#[trigger] self.edges@[f]).is_erasure == erasures@.take(i as int).contains(f as EdgeIndex)
                        &&& self.edges@[f].vertices == start[f].vertices
                        &&& self.edges@[f].half_weight == start[f].half_weight
                    },
            decreases erasures@.len() - i,
        {
            let x = erasures[i];
            self.set_edge_erasure(x, true);
            proof {
                let next = erasures@.take(i + 1);
                assert(next =~= erasures@.take(i as int).push(x));
                assert forall|f: int| 0 <= f < self.edges@.len() implies
                    (#[trigger] self.edges@[f]).is_erasure == next.contains(f as EdgeIndex) by {
                    assert(next[i as int] == x);
                    assert((f as EdgeIndex) as int == f);
                    if f != x {
                        if next.contains(f as EdgeIndex) {
                            let k = choose|k: int| 0 <= k < next.len() && next[k] == f as EdgeIndex;
                            assert(k < i);
                            assert(erasures@.take(i as int)[k] == f as EdgeIndex);
                        }
                    } else {
                        assert(next[i as int] == x);
                    }
                }
            }
            i = i + 1;
        }
        proof {
            assert(erasures@.take(erasures@.len() as int) =~= erasures@);
        }
    }

    /// the current defect vertices, in increasing order
    pub fn get_defect_vertices(&self) -> (r: Vec<VertexIndex>)
        ensures
            r@ == marked_vertices(self.vertices@, |v: CodeVertex| defect_flag(v)),
    {
        let mut defects: Vec<VertexIndex> = Vec::new();
        let mut v: usize = 0;
        while v < self.vertices.len()
            invariant
                v <= self.vertices@.len(),
                defects@ == marked_vertices(self.vertices@.take(v as int), |x: CodeVertex| defect_flag(x)),
            decreases self.vertices@.len() - v,
        {
            if self.vertices[v].is_defect {
                defects.push(v);
            }
            v = v + 1;
            proof {
                let next = self.vertices@.take(v as int);
                assert(next.drop_last() =~= self.vertices@.take(v - 1));
            }
        }
        proof {
            assert(self.vertices@.take(self.vertices@.len() as int) =~= self.vertices@);
        }
        defects
    }

    /// the current erased edges, in increasing order
    pub fn get_erasures(&self) -> (r: Vec<EdgeIndex>)
        ensures
            r@ == erased_edges(self.edges@),
    {
        let mut erasures: Vec<EdgeIndex> = Vec::new();
        let mut e: usize = 0;
        while e < self.edges.len()
            invariant
                e <= self.edges@.len(),
                erasures@ == erased_edges(self.edges@.take(e as int)),
            decreases self.edges@.len() - e,
        {
            if self.edges[e].is_erasure {
                erasures.push(e);
            }
            e = e + 1;
            proof {
                let next = self.edges@.take(e as int);
                assert(next.drop_last() =~= self.edges@.take(e - 1));
            }
        }
        proof {
            assert(self.edges@.take(self.edges@.len() as int) =~= self.edges@);
        }
        erasures
    }

    /// the current syndrome: the defect vertices and the erased edges
    pub fn get_syndrome(&self) -> (r: SyndromePattern)
        ensures
            r.defect_vertices@ == marked_vertices(self.vertices@, |v: CodeVertex| defect_flag(v)),
            r.erasures@ == erased_edges(self.edges@),
            r.dynamic_weights@.len() == 0,
    {
        SyndromePattern::new(self.get_defect_vertices(), self.get_erasures())
    }

    /// load a syndrome: its defect vertices and its erased edges
    pub fn set_syndrome(&mut self, syndrome_pattern: &SyndromePattern)
        requires
            forall|i: int|
                0 <= i < syndrome_pattern.defect_vertices@.len() ==> #[trigger] syndrome_pattern.defect_vertices@[i]
                    < old(self).vertices@.len(),
            forall|i: int|
                0 <= i < syndrome_pattern.erasures@.len() ==> #[trigger] syndrome_pattern.erasures@[i]
                    < old(self).edges@.len(),
        ensures
            final(self).vertices@.len() == old(self).vertices@.len(),
            final(self).edges@.len() == old(self).edges@.len(),
            forall|v: int|
                0 <= v < final(self).vertices@.len() ==> {
                    &&& (#[trigger] final(self).vertices@[v]).is_defect == syndrome_pattern.defect_vertices@.contains(
                        v as VertexIndex,
                    )
                    &&& final(self).vertices@[v].is_virtual == old(self).vertices@[v].is_virtual
                    &&& final(self).vertices@[v].neighbor_edges@ == old(self).vertices@[v].neighbor_edges@
                },
            forall|e: int|
                0 <= e < final(self).edges@.len() ==> {
                    &&& (#[trigger] final(self).edges@[e]).is_erasure == syndrome_pattern.erasures@.contains(e as EdgeIndex)
                    &&& final(self).edges@[e].vertices == old(self).edges@[e].vertices
                    &&& final(self).edges@[e].half_weight == old(self).edges@[e].half_weight
                },
    {
        self.set_defect_vertices(syndrome_pattern.defect_vertices.as_slice());
        self.set_erasures(syndrome_pattern.erasures.as_slice());
    }

    /// flip the defect mark of vertex `v` unless it is virtual
    fn toggle_defect(&mut self, v: usize)
        requires
            v < old(self).vertices@.len(),
        ensures
            final(self).edges@ == old(self).edges@,
            final(self).vertices@.len() == old(self).vertices@.len(),
            final(self).vertices@[v as int].is_defect == (old(self).vertices@[v as int].is_defect
                != !old(self).vertices@[v as int].is_virtual),
            final(self).vertices@[v as int].is_virtual == old(self).vertices@[v as int].is_virtual,
            final(self).vertices@[v as int].neighbor_edges@ == old(self).vertices@[v as int].neighbor_edges@,
            forall|u: int| 0 <= u < final(self).vertices@.len() && u != v ==> #[trigger] final(self).vertices@[u] == old(self).vertices@[u],
    {
        if !self.vertices[v].is_virtual {
            let flag = !self.vertices[v].is_defect;
            self.set_vertex_defect(v, flag);
        }
    }

    /// an error on each listed edge in turn: every non-virtual end of the edge flips its defect
    /// mark; returns the resulting syndrome
    pub fn generate_errors(&mut self, edge_indices: &[EdgeIndex]) -> (r: SyndromePattern)
        requires
            old(self).edges_in_range(),
            forall|i: int| 0 <= i < edge_indices@.len() ==> #[trigger] edge_indices@[i] < old(self).edges@.len(),
        ensures
            final(self).edges@ == old(self).edges@,
            final(self).vertices@.len() == old(self).vertices@.len(),
            forall|v: int|
                0 <= v < final(self).vertices@.len() ==> {
                    &&& (#[trigger] final(self).vertices@[v]).is_defect == (if old(self).vertices@[v].is_virtual {
                        old(self).vertices@[v].is_defect
                    } else {
                        old(self).vertices@[v].is_defect != odd_flips(old(self).edges@, edge_indices@, v)
                    })
                    &&& final(self).vertices@[v].is_virtual == old(self).vertices@[v].is_virtual
                    &&& final(self).vertices@[v].neighbor_edges@ == old(self).vertices@[v].neighbor_edges@
                },
            r.defect_vertices@ == marked_vertices(final(self).vertices@, |v: CodeVertex| defect_flag(v)),
            r.erasures@ == erased_edges(final(self).edges@),
            r.dynamic_weights@.len() == 0,
    {
        let ghost start = self.vertices@;
        let mut i: usize = 0;
        while i < edge_indices.len()
            invariant
                i <= edge_indices@.len(),
                self.edges@ == old(self).edges@,
                old(self).edges_in_range(),
                start == old(self).vertices@,
                self.vertices@.len() == start.len(),
                forall|j: int| 0 <= j < edge_indices@.len() ==> #[trigger] edge_indices@[j] < self.edges@.len(),
                forall|u: int|
                    0 <= u < self.vertices@.len() ==> {
                        &&& (#[trigger] self.vertices@[u]).is_defect == (if start[u].is_virtual {
                            start[u].is_defect
                        } else {
                            start[u].is_defect != odd_flips(self.edges@, edge_indices@.take(i as int), u)
                        })
                        &&& self.vertices@[u].is_virtual == start[u].is_virtual
                        &&& self.vertices@[u].neighbor_edges@ == start[u].neighbor_edges@
                    },
            decreases edge_indices@.len() - i,
        {
            let edge_index = edge_indices[i];
            let (v1, v2) = self.edges[edge_index].vertices;
            let ghost before = self.vertices@;
            self.toggle_defect(v1);
            let ghost middle = self.vertices@;
            self.toggle_defect(v2);
            proof {
                let next = edge_indices@.take(i + 1);
                assert(next.drop_last() =~= edge_indices@.take(i as int));
                assert(next.last() == edge_index);
                assert forall|u: int| 0 <= u < self.vertices@.len() implies {
                    &&& (#[trigger] self.vertices@[u]).is_defect == (if start[u].is_virtual {
                        start[u].is_defect
                    } else {
                        start[u].is_defect != odd_flips(self.edges@, next, u)
                    })
                    &&& self.vertices@[u].is_virtual == start[u].is_virtual
                    &&& self.vertices@[u].neighbor_edges@ == start[u].neighbor_edges@
                } by {
                    if u != v2 {
                        assert(self.vertices@[u] == middle[u]);
                    }
                    if u != v1 {
                        assert(middle[u] == before[u]);
                    }
                }
            }
            i = i + 1;
        }
        proof {
            assert(edge_indices@.take(edge_indices@.len() as int) =~= edge_indices@);
        }
        self.get_syndrome()
    }

    /// remove all defects; every edge is marked as erased
    pub fn clear_errors(&mut self)
        ensures
            final(self).vertices@.len() == old(self).vertices@.len(),
            final(self).edges@.len() == old(self).edges@.len(),
            forall|v: int|
                0 <= v < final(self).vertices@.len() ==> {
                    &&& !(#[trigger] final(self).vertices@[v]).is_defect
                    &&& final(self).vertices@[v].is_virtual == old(self).vertices@[v].is_virtual
                    &&& final(self).vertices@[v].neighbor_edges@ == old(self).vertices@[v].neighbor_edges@
                },
            forall|e: int|
                0 <= e < final(self).edges@.len() ==> {
                    &&& (#[trigger] final(self).edges@[e]).is_erasure
                    &&& final(self).edges@[e].vertices == old(self).edges@[e].vertices
                    &&& final(self).edges@[e].half_weight == old(self).edges@[e].half_weight
                },
    {
        let ghost start = self.vertices@;
        let mut v: usize = 0;
        while v < self.vertices.len()
            invariant
                v <= self.vertices@.len(),
                self.vertices@.len() == start.len(),
                self.edges@ == old(self).edges@,
                start == old(self).vertices@,
                forall|u: int|
                    0 <= u < self.vertices@.len() ==> {
                        &&& (#[trigger] self.vertices@[u]).is_defect == (u >= v && start[u].is_defect)
                        &&& self.vertices@[u].is_virtual == start[u].is_virtual
                        &&& self.vertices@[u].neighbor_edges@ == start[u].neighbor_edges@
                    },
            decreases self.vertices@.len() - v,
        {
            self.set_vertex_defect(v, false);
            v = v + 1;
        }
        let ghost edges = self.edges@;
        let mut e: usize = 0;
        while e < self.edges.len()
            invariant
                e <= self.edges@.len(),
                self.edges@.len() == edges.len(),
                edges == old(self).edges@,
                self.vertices@.len() == start.len(),
                forall|u: int|
                    0 <= u < self.vertices@.len() ==> {
                        &&& !(#[trigger] self.vertices@[u]).is_defect
                        &&& self.vertices@[u].is_virtual == start[u].is_virtual
                        &&& self.vertices@[u].neighbor_edges@ == start[u].neighbor_edges@
                    },
                forall|f: int|
                    0 <= f < self.edges@.len() ==> {
                        &&& (#[trigger] self.edges@[f]).is_erasure == (f < e || edges[f].is_erasure)
                        &&& self.edges@[f].vertices == edges[f].vertices
                        &&& self.edges@[f].half_weight == edges[f].half_weight
                    },
            decreases self.edges@.len() - e,
        {
            self.set_edge_erasure(e, true);
            e = e + 1;
        }
    }

    /// renumber the vertices so that the vertex at new index `i` is the one that was at
    /// `sequential_vertices[i]`; the edges keep their order and follow their ends
    pub fn reorder_vertices(&mut self, sequential_vertices: &[VertexIndex])
        requires
            old(self).vertices@.len() == sequential_vertices@.len(),
            is_permutation(sequential_vertices@),
            old(self).edges_in_range(),
        ensures
            final(self).vertices@.len() == old(self).vertices@.len(),
            forall|v: int|
                0 <= v < final(self).vertices@.len() ==> {
                    let before = old(self).vertices@[sequential_vertices@[v] as int];
                    &&& (#[trigger] final(self).vertices@[v]).neighbor_edges@ == before.neighbor_edges@
                    &&& final(self).vertices@[v].is_virtual == before.is_virtual
                    &&& final(self).vertices@[v].is_defect == before.is_defect
                },
            final(self).edges@.len() == old(self).edges@.len(),
            final(self).edges_in_range(),
            forall|e: int|
                0 <= e < final(self).edges@.len() ==> {
                    let before = old(self).edges@[e];
                    &&& sequential_vertices@[(#[trigger] final(self).edges@[e]).vertices.0 as int] == before.vertices.0
                    &&& sequential_vertices@[final(self).edges@[e].vertices.1 as int] == before.vertices.1
                    &&& final(self).edges@[e].half_weight == before.half_weight
                    &&& final(self).edges@[e].is_erasure == before.is_erasure
                },
    {
        let n = sequential_vertices.len();
        let old_to_new = build_old_to_new(sequential_vertices);
        let mut vertices: Vec<CodeVertex> = Vec::new();
        let mut new_index: usize = 0;
        while new_index < n
            invariant
                n == sequential_vertices@.len(),
                n == self.vertices@.len(),
                self.vertices@ == old(self).vertices@,
                is_permutation(sequential_vertices@),
                new_index <= n,
                vertices@.len() == new_index,
                forall|v: int|
                    0 <= v < new_index ==> {
                        let before = self.vertices@[sequential_vertices@[v] as int];
                        &&& (#[trigger] vertices@[v]).neighbor_edges@ == before.neighbor_edges@
                        &&& vertices@[v].is_virtual == before.is_virtual
                        &&& vertices@[v].is_defect == before.is_defect
                    },
            decreases n - new_index,
        {
            let vertex = self.vertices[sequential_vertices[new_index]].duplicate();
            vertices.push(vertex);
            new_index = new_index + 1;
        }
        self.vertices = vertices;
        let ghost edges = self.edges@;
        let mut e: usize = 0;
        while e < self.edges.len()
            invariant
                n == sequential_vertices@.len(),
                edges == old(self).edges@,
                old(self).edges_in_range(),
                old(self).vertices@.len() == n,
                self.vertices@.len() == n,
                forall|v: int|
                    0 <= v < n ==> {
                        let before = old(self).vertices@[sequential_vertices@[v] as int];
                        &&& (#[trigger] self.vertices@[v]).neighbor_edges@ == before.neighbor_edges@
                        &&& self.vertices@[v].is_virtual == before.is_virtual
                        &&& self.vertices@[v].is_defect == before.is_defect
                    },
                old_to_new@.len() == n,
                forall|o: int|
                    0 <= o < n ==> match #[trigger] old_to_new@[o] {
                        Some(v) => v < n && sequential_vertices@[v as int] == o,
                        None => false,
                    },
                e <= self.edges@.len(),
                self.edges@.len() == edges.len(),
                forall|f: int|
                    0 <= f < self.edges@.len() ==> if f < e {
                        &&& (#[trigger] self.edges@[f]).vertices.0 < n
                        &&& self.edges@[f].vertices.1 < n
                        &&& sequential_vertices@[self.edges@[f].vertices.0 as int] == edges[f].vertices.0
                        &&& sequential_vertices@[self.edges@[f].vertices.1 as int] == edges[f].vertices.1
                        &&& self.edges@[f].half_weight == edges[f].half_weight
                        &&& self.edges@[f].is_erasure == edges[f].is_erasure
                    } else {
                        self.edges@[f] == edges[f]
                    },
            decreases self.edges@.len() - e,
        {
            let mut edge = self.edges[e];
            let (old_left, old_right) = edge.vertices;
            assert(old_left < n && old_right < n);
            let new_left = match old_to_new[old_left] {
                Some(v) => v,
                None => 0,
            };
            let new_right = match old_to_new[old_right] {
                Some(v) => v,
                None => 0,
            };
            edge.vertices = (new_left, new_right);
            self.edges.set(e, edge);
            e = e + 1;
        }
    }

    /// mark vertex `v` as virtual, leaving everything else as it is
    fn set_vertex_virtual(&mut self, v: usize)
        requires
            v < old(self).vertices@.len(),
        ensures
            final(self).edges@ == old(self).edges@,
            final(self).vertices@.len() == old(self).vertices@.len(),
            final(self).vertices@[v as int].is_virtual,
            final(self).vertices@[v as int].is_defect == old(self).vertices@[v as int].is_defect,
            final(self).vertices@[v as int].neighbor_edges@ == old(self).vertices@[v as int].neighbor_edges@,
            forall|u: int| 0 <= u < final(self).vertices@.len() && u != v ==> #[trigger] final(self).vertices@[u] == old(self).vertices@[u],
    {
        let mut vertex = self.vertices.remove(v);
        vertex.is_virtual = true;
        self.vertices.insert(v, vertex);
    }
}

/// code capacity noise model on a repetition code: a single round of perfect measurements
pub struct CodeCapacityRepetitionCode;

impl CodeCapacityRepetitionCode {
    /// the decoding graph of the repetition code of odd distance `d >= 3`: vertices `0..d - 1`
    /// form a chain ending at the virtual vertex `d - 1`, and vertex `0` is joined to the other
    /// virtual vertex `d`
    pub fn create_code(d: VertexNum) -> (r: ExampleCode)
        requires
            d >= 3,
            d % 2 == 1,
            d < VertexNum::MAX,
        ensures
            fresh_edges(r.edges@, row_edges(0, d as int)),
            r.vertices@.len() == d + 1,
            forall|v: int|
                0 <= v <= d ==> {
                    &&& (#[trigger] r.vertices@[v]).is_virtual == (v == d - 1 || v == d)
                    &&& !r.vertices@[v].is_defect
                    &&& r.vertices@[v].neighbor_edges@ == incident_edges(r.edges@, v)
                },
    {
        let vertex_num = (d - 1) + 2;
        let mut edges: Vec<CodeEdge> = Vec::new();
        push_row_edges(&mut edges, 0, d, Ghost(Seq::empty()));
        proof {
            assert(Seq::<(int, int)>::empty() + row_edges(0, d as int) =~= row_edges(0, d as int));
        }
        let mut code = ExampleCode { vertices: Vec::new(), edges };
        code.fill_vertices(vertex_num);
        code.set_vertex_virtual(d - 1);
        code.set_vertex_virtual(d);
        code
    }
}

/// code capacity noise model on a planar code: a single round of perfect measurements; the
/// decoding graph of one type of stabilizers of the (unrotated) surface code
pub struct CodeCapacityPlanarCode;

impl CodeCapacityPlanarCode {
    /// the decoding graph of the planar code of odd distance `d >= 3`: `d` rows of `d + 1`
    /// vertices, each row laid out as the repetition code with its two virtual vertices, and
    /// each non-virtual vertex joined to the one below it
    pub fn create_code(d: VertexNum) -> (r: ExampleCode)
        requires
            d >= 3,
            d % 2 == 1,
            (d + 1) * d <= VertexNum::MAX,
        ensures
            fresh_edges(r.edges@, planar_edges(d as int, d as nat)),
            r.vertices@.len() == (d + 1) * d,
            forall|v: int|
                0 <= v < (d + 1) * d ==> {
                    &&& (#[trigger] r.vertices@[v]).is_virtual == (v % (d + 1) >= d - 1)
                    &&& !r.vertices@[v].is_defect
                    &&& r.vertices@[v].neighbor_edges@ == incident_edges(r.edges@, v)
                },
    {
        assert(d + 1 <= (d + 1) * d) by (nonlinear_arith)
            requires
                d >= 3,
        ;
        let row_vertex_num = (d - 1) + 2;
        let vertex_num = row_vertex_num * d;
        let mut edges: Vec<CodeEdge> = Vec::new();
        let mut row: usize = 0;
        while row < d
            invariant
                d >= 3,
                row <= d,
                row_vertex_num == d + 1,
                vertex_num == (d + 1) * d,
                vertex_num <= VertexNum::MAX,
                fresh_edges(edges@, planar_edges(d as int, row as nat)),
                forall|e: int|
                    0 <= e < edges@.len() ==> (#[trigger] edges@[e]).vertices.0 < vertex_num
                        && edges@[e].vertices.1 < vertex_num,
            decreases d - row,
        {
            assert(row * (d + 1) + d + 1 <= (d + 1) * d) by (nonlinear_arith)
                requires
                    row < d,
            ;
            let bias = row * row_vertex_num;
            let ghost before = edges@;
            push_row_edges(&mut edges, bias, d, Ghost(planar_edges(d as int, row as nat)));
            let ghost with_row = planar_edges(d as int, row as nat) + row_edges(bias as int, d as int);
            assert forall|e: int|
                0 <= e < edges@.len() implies (#[trigger] edges@[e]).vertices.0 < vertex_num
                    && edges@[e].vertices.1 < vertex_num by {
                if e >= before.len() {
                    assert(edges@[e].vertices.0 == with_row[e].0);
                } else {
                    assert(edges@[e] == before[e]);
                }
            }
            if row + 1 < d {
                assert(row * (d + 1) + d + 1 + d <= (d + 1) * d) by (nonlinear_arith)
                    requires
                        row + 1 < d,
                ;
                let ghost middle = edges@;
                push_vertical_edges(&mut edges, bias, d, row_vertex_num, Ghost(with_row));
                let ghost all = with_row + vertical_edges(bias as int, d as int, row_vertex_num as int);
                assert forall|e: int|
                    0 <= e < edges@.len() implies (#[trigger] edges@[e]).vertices.0 < vertex_num
                        && edges@[e].vertices.1 < vertex_num by {
                    if e >= middle.len() {
                        assert(edges@[e].vertices.0 == all[e].0);
                    } else {
                        assert(edges@[e] == middle[e]);
                    }
                }
            }
            row = row + 1;
        }
        let mut code = ExampleCode { vertices: Vec::new(), edges };
        code.fill_vertices(vertex_num);
        let mut row: usize = 0;
        while row < d
            invariant
                d >= 3,
                row <= d,
                row_vertex_num == d + 1,
                vertex_num == (d + 1) * d,
                vertex_num <= VertexNum::MAX,
                code.vertices@.len() == vertex_num,
                fresh_edges(code.edges@, planar_edges(d as int, d as nat)),
                forall|v: int|
                    0 <= v < vertex_num ==> {
                        &&& (#[trigger] code.vertices@[v]).is_virtual == (v < row * (d + 1) && v % (d
                            + 1) >= d - 1)
                        &&& !code.vertices@[v].is_defect
                        &&& code.vertices@[v].neighbor_edges@ == incident_edges(code.edges@, v)
                    },
            decreases d - row,
        {
            assert(row * (d + 1) + d + 1 <= (d + 1) * d) by (nonlinear_arith)
                requires
                    row < d,
            ;
            let bias = row * row_vertex_num;
            let ghost before = code.vertices@;
            code.set_vertex_virtual(bias + d - 1);
            let ghost middle = code.vertices@;
            code.set_vertex_virtual(bias + d);
            proof {
                assert forall|v: int| 0 <= v < vertex_num implies {
                    &&& (#[trigger] code.vertices@[v]).is_virtual == (v < (row + 1) * (d + 1) && v % (d
                        + 1) >= d - 1)
                    &&& !code.vertices@[v].is_defect
                    &&& code.vertices@[v].neighbor_edges@ == incident_edges(code.edges@, v)
                } by {
                    assert((row + 1) * (d + 1) == bias + d + 1) by (nonlinear_arith)
                        requires
                            bias == row * (d + 1),
                    ;
                    if bias <= v <= bias + d {
                        vstd::arithmetic::div_mod::lemma_fundamental_div_mod_converse(
                            v,
                            d + 1,
                            row as int,
                            v - bias,
                        );
                    }
                    if v != bias + d {
                        assert(code.vertices@[v] == middle[v]);
                    }
                    if v != bias + d - 1 {
                        assert(middle[v] == before[v]);
                    }
                }
            }
            row = row + 1;
        }
        code
    }
}

/// phenomenological noise model on a planar code: several measurement rounds, each a layer of the
/// code capacity planar code, with measurement errors joining each layer to the next
pub struct PhenomenologicalPlanarCode;

impl PhenomenologicalPlanarCode {
    /// the decoding graph of `noisy_measurements + 1` layers of the planar code of odd distance
    /// `d >= 3`, each layer laid out as [`CodeCapacityPlanarCode`], and each non-virtual vertex
    /// joined to the same vertex of the next layer
    pub fn create_code(d: VertexNum, noisy_measurements: VertexNum) -> (r: ExampleCode)
        requires
            d >= 3,
            d % 2 == 1,
            (d + 1) * d * (noisy_measurements + 1) <= VertexNum::MAX,
        ensures
            fresh_edges(
                r.edges@,
                phenomenological_edges(d as int, noisy_measurements + 1, (noisy_measurements + 1) as nat),
            ),
            r.vertices@.len() == (d + 1) * d * (noisy_measurements + 1),
            forall|v: int|
                0 <= v < (d + 1) * d * (noisy_measurements + 1) ==> {
                    &&& (#[trigger] r.vertices@[v]).is_virtual == (v % (d + 1) >= d - 1)
                    &&& !r.vertices@[v].is_defect
                    &&& r.vertices@[v].neighbor_edges@ == incident_edges(r.edges@, v)
                },
    {
        assert(d + 1 <= (d + 1) * d * (noisy_measurements + 1) && noisy_measurements + 1 <= (d + 1) * d * (
        noisy_measurements + 1)) by (nonlinear_arith)
            requires
                d >= 3,
        ;
        let row_vertex_num = (d - 1) + 2;
        let td = noisy_measurements + 1;
        assert(td <= (d + 1) * d * td && (d + 1) * d <= (d + 1) * d * td) by (nonlinear_arith)
            requires
                d >= 3,
                td >= 1,
        ;
        let t_vertex_num = row_vertex_num * d;
        let vertex_num = t_vertex_num * td;
        let ghost n = vertex_num as int;
        let ghost tv = t_vertex_num as int;
        let mut edges: Vec<CodeEdge> = Vec::new();
        let mut t: usize = 0;
        while t < td
            invariant
                d >= 3,
                t <= td,
                row_vertex_num == d + 1,
                t_vertex_num == (d + 1) * d,
                vertex_num == t_vertex_num * td,
                vertex_num <= VertexNum::MAX,
                n == vertex_num,
                tv == t_vertex_num,
                td == noisy_measurements + 1,
                fresh_edges(edges@, phenomenological_edges(d as int, td as int, t as nat)),
                pairs_below(phenomenological_edges(d as int, td as int, t as nat), n),
            decreases td - t,
        {
            assert((t + 1) * tv <= n && t * tv + tv == (t + 1) * tv) by (nonlinear_arith)
                requires
                    t < td,
                    n == tv * td,
                    tv >= 0,
            ;
            let t_bias = t * t_vertex_num;
            let ghost before_layer = phenomenological_edges(d as int, td as int, t as nat);
            let mut row: usize = 0;
            while row < d
                invariant
                    d >= 3,
                    row <= d,
                    t < td,
                    row_vertex_num == d + 1,
                    t_vertex_num == (d + 1) * d,
                    t_bias == t * t_vertex_num,
                    t_bias + t_vertex_num <= n,
                    n == vertex_num,
                    vertex_num <= VertexNum::MAX,
                    fresh_edges(edges@, before_layer + layer_edges(t_bias as int, d as int, row as nat)),
                    pairs_below(before_layer + layer_edges(t_bias as int, d as int, row as nat), n),
                decreases d - row,
            {
                assert(t_bias + row * (d + 1) + (d + 1) <= t_bias + (d + 1) * d) by (nonlinear_arith)
                    requires
                        row < d,
                ;
                let bias = t_bias + row * row_vertex_num;
                let ghost pre = before_layer + layer_edges(t_bias as int, d as int, row as nat);
                push_row_edges(&mut edges, bias, d, Ghost(pre));
                let ghost with_row = pre + row_edges(bias as int, d as int);
                proof {
                    lemma_row_below(bias as int, d as int, n);
                    lemma_pairs_below_add(pre, row_edges(bias as int, d as int), n);
                }
                if row + 1 < d {
                    assert(t_bias + row * (d + 1) + (d + 1) + (d + 1) <= t_bias + (d + 1) * d) by (nonlinear_arith)
                        requires
                            row + 1 < d,
                    ;
                    push_vertical_edges(&mut edges, bias, d, row_vertex_num, Ghost(with_row));
                    proof {
                        lemma_vertical_below(bias as int, d as int, (d + 1) as int, n);
                        lemma_pairs_below_add(with_row, vertical_edges(bias as int, d as int, (d + 1) as int), n);
                        assert(with_row + vertical_edges(bias as int, d as int, (d + 1) as int) =~= before_layer
                            + layer_edges(t_bias as int, d as int, (row + 1) as nat));
                    }
                } else {
                    proof {
                        assert(with_row =~= before_layer + layer_edges(t_bias as int, d as int, (row + 1) as nat));
                    }
                }
                row = row + 1;
            }
            let ghost with_layer = before_layer + layer_edges(t_bias as int, d as int, d as nat);
            if t + 1 < td {
                assert((t + 2) * tv <= n && (t + 1) * tv + tv == (t + 2) * tv) by (nonlinear_arith)
                    requires
                        t + 1 < td,
                        n == tv * td,
                        tv >= 0,
                ;
                let mut row: usize = 0;
                while row < d
                    invariant
                        d >= 3,
                        row <= d,
                        t + 1 < td,
                        row_vertex_num == d + 1,
                        t_vertex_num == (d + 1) * d,
                        tv == t_vertex_num,
                        t_bias == t * t_vertex_num,
                        t_bias + 2 * t_vertex_num <= n,
                        n == vertex_num,
                        vertex_num <= VertexNum::MAX,
                        fresh_edges(
                            edges@,
                            with_layer + between_layers(t_bias as int, d as int, tv, row as nat),
                        ),
                        pairs_below(with_layer + between_layers(t_bias as int, d as int, tv, row as nat), n),
                    decreases d - row,
                {
                    assert(t_bias + row * (d + 1) + (d + 1) <= t_bias + (d + 1) * d) by (nonlinear_arith)
                        requires
                            row < d,
                    ;
                    let bias = t_bias + row * row_vertex_num;
                    let ghost pre = with_layer + between_layers(t_bias as int, d as int, tv, row as nat);
                    push_vertical_edges(&mut edges, bias, d, t_vertex_num, Ghost(pre));
                    proof {
                        lemma_vertical_below(bias as int, d as int, tv, n);
                        lemma_pairs_below_add(pre, vertical_edges(bias as int, d as int, tv), n);
                        assert(pre + vertical_edges(bias as int, d as int, tv) =~= with_layer + between_layers(
                            t_bias as int,
                            d as int,
                            tv,
                            (row + 1) as nat,
                        ));
                    }
                    row = row + 1;
                }
            }
            t = t + 1;
        }
        let mut code = ExampleCode { vertices: Vec::new(), edges };
        proof {
            assert forall|e: int| 0 <= e < code.edges@.len() implies (#[trigger] code.edges@[e]).vertices.0
                < vertex_num && code.edges@[e].vertices.1 < vertex_num by {
                let pairs = phenomenological_edges(d as int, td as int, td as nat);
                assert(0 <= pairs[e].0 < n);
            }
        }
        code.fill_vertices(vertex_num);
        assert(td * d <= vertex_num) by (nonlinear_arith)
            requires
                vertex_num == (d + 1) * d * td,
                d >= 3,
                td >= 1,
        ;
        let rows = td * d;
        assert(rows * (d + 1) == vertex_num) by (nonlinear_arith)
            requires
                rows == td * d,
                vertex_num == (d + 1) * d * td,
        ;
        let mut row: usize = 0;
        while row < rows
            invariant
                d >= 3,
                row <= rows,
                row_vertex_num == d + 1,
                rows * (d + 1) == vertex_num,
                vertex_num <= VertexNum::MAX,
                code.vertices@.len() == vertex_num,
                fresh_edges(code.edges@, phenomenological_edges(d as int, td as int, td as nat)),
                forall|v: int|
                    0 <= v < vertex_num ==> {
                        &&& (#[trigger] code.vertices@[v]).is_virtual == (v < row * (d + 1) && v % (d
                            + 1) >= d - 1)
                        &&& !code.vertices@[v].is_defect
                        &&& code.vertices@[v].neighbor_edges@ == incident_edges(code.edges@, v)
                    },
            decreases rows - row,
        {
            assert(row * (d + 1) + d + 1 <= rows * (d + 1)) by (nonlinear_arith)
                requires
                    row < rows,
            ;
            let bias = row * row_vertex_num;
            let ghost before = code.vertices@;
            code.set_vertex_virtual(bias + d - 1);
            let ghost middle = code.vertices@;
            code.set_vertex_virtual(bias + d);
            proof {
                assert forall|v: int| 0 <= v < vertex_num implies {
                    &&& (#[trigger] code.vertices@[v]).is_virtual == (v < (row + 1) * (d + 1) && v % (d
                        + 1) >= d - 1)
                    &&& !code.vertices@[v].is_defect
                    &&& code.vertices@[v].neighbor_edges@ == incident_edges(code.edges@, v)
                } by {
                    assert((row + 1) * (d + 1) == bias + d + 1) by (nonlinear_arith)
                        requires
                            bias == row * (d + 1),
                    ;
                    if bias <= v <= bias + d {
                        vstd::arithmetic::div_mod::lemma_fundamental_div_mod_converse(
                            v,
                            d + 1,
                            row as int,
                            v - bias,
                        );
                    }
                    if v != bias + d {
                        assert(code.vertices@[v] == middle[v]);
                    }
                    if v != bias + d - 1 {
                        assert(middle[v] == before[v]);
                    }
                }
            }
            row = row + 1;
        }
        code
    }
}

/// the `d` edges, one per data qubit, from the row of the rotated code that starts at `bias` to
/// the next row, `rvn` vertices further; qubit `i` joins vertex `i / 2` of the row to a vertex of
/// the next row, and an odd qubit leans right on an even row and left on an odd row
pub open spec fn rotated_row_edges(bias: int, rvn: int, d: int, even_row: bool) -> Seq<(int, int)> {
    Seq::new(
        d as nat,
        |i: int|
            if i % 2 == 0 {
                (bias + i / 2, bias + rvn + i / 2)
            } else if even_row {
                (bias + (i - 1) / 2, bias + rvn + (i + 1) / 2)
            } else {
                (bias + (i + 1) / 2, bias + rvn + (i - 1) / 2)
            },
    )
}

/// the edges of the first `rows` rows of the rotated code of distance `d`, each row holding `rvn`
/// vertices
pub open spec fn rotated_edges(d: int, rvn: int, rows: nat) -> Seq<(int, int)>
    decreases rows,
{
    if rows == 0 {
        Seq::empty()
    } else {
        let row = rows - 1;
        rotated_edges(d, rvn, (rows - 1) as nat) + rotated_row_edges(row * rvn, rvn, d, row % 2 == 0)
    }
}

/// the virtual vertices of the rotated code with rows of `rvn` vertices: the last vertex of an
/// even row and the first vertex of an odd row
pub open spec fn rotated_virtual(v: int, rvn: int) -> bool {
    if (v / rvn) % 2 == 0 {
        v % rvn == rvn - 1
    } else {
        v % rvn == 0
    }
}

/// append the edges of one row of the rotated code, see `rotated_row_edges`
fn push_rotated_row_edges(
    edges: &mut Vec<CodeEdge>,
    bias: VertexIndex,
    rvn: VertexNum,
    d: VertexNum,
    even_row: bool,
    Ghost(pairs): Ghost<Seq<(int, int)>>,
)
    requires
        d >= 1,
        d % 2 == 1,
        rvn == (d - 1) / 2 + 1,
        bias + 2 * rvn <= VertexIndex::MAX,
        fresh_edges(old(edges)@, pairs),
    ensures
        fresh_edges(final(edges)@, pairs + rotated_row_edges(bias as int, rvn as int, d as int, even_row)),
{
    let ghost row = rotated_row_edges(bias as int, rvn as int, d as int, even_row);
    let mut i: usize = 0;
    while i < d
        invariant
            d >= 1,
            d % 2 == 1,
            rvn == (d - 1) / 2 + 1,
            bias + 2 * rvn <= VertexIndex::MAX,
            i <= d,
            fresh_edges(edges@, pairs + row.take(i as int)),
            row == rotated_row_edges(bias as int, rvn as int, d as int, even_row),
        decreases d - i,
    {
        if i % 2 == 0 {
            edges.push(CodeEdge::new(bias + i / 2, bias + rvn + i / 2));
        } else if even_row {
            edges.push(CodeEdge::new(bias + (i - 1) / 2, bias + rvn + (i + 1) / 2));
        } else {
            edges.push(CodeEdge::new(bias + (i + 1) / 2, bias + rvn + (i - 1) / 2));
        }
        proof {
            assert(pairs + row.take(i + 1) =~= (pairs + row.take(i as int)).push(row[i as int]));
        }
        i = i + 1;
    }
    proof {
        assert(row.take(d as int) =~= row);
    }
}

/// code capacity noise model on a rotated surface code: a single round of perfect measurements
pub struct CodeCapacityRotatedCode;

impl CodeCapacityRotatedCode {
    /// the decoding graph of the rotated code of odd distance `d >= 3`: `d + 1` rows of
    /// `(d - 1) / 2 + 1` vertices, each row joined to the next by `d` edges, with a virtual vertex
    /// at the right end of each even row and at the left end of each odd row
    pub fn create_code(d: VertexNum) -> (r: ExampleCode)
        requires
            d >= 3,
            d % 2 == 1,
            ((d - 1) / 2 + 1) * (d + 1) <= VertexNum::MAX,
        ensures
            fresh_edges(r.edges@, rotated_edges(d as int, (d - 1) / 2 + 1, d as nat)),
            r.vertices@.len() == ((d - 1) / 2 + 1) * (d + 1),
            forall|v: int|
                0 <= v < ((d - 1) / 2 + 1) * (d + 1) ==> {
                    &&& (#[trigger] r.vertices@[v]).is_virtual == rotated_virtual(v, (d - 1) / 2 + 1)
                    &&& !r.vertices@[v].is_defect
                    &&& r.vertices@[v].neighbor_edges@ == incident_edges(r.edges@, v)
                },
    {
        assert(d + 1 <= ((d - 1) / 2 + 1) * (d + 1)) by (nonlinear_arith)
            requires
                d >= 3,
        ;
        let row_vertex_num = (d - 1) / 2 + 1;
        let vertex_num = row_vertex_num * (d + 1);
        let ghost n = vertex_num as int;
        let ghost rvn = row_vertex_num as int;
        let mut edges: Vec<CodeEdge> = Vec::new();
        let mut row: usize = 0;
        while row < d
            invariant
                d >= 3,
                d % 2 == 1,
                row <= d,
                row_vertex_num == (d - 1) / 2 + 1,
                rvn == row_vertex_num,
                vertex_num == row_vertex_num * (d + 1),
                vertex_num <= VertexNum::MAX,
                n == vertex_num,
                fresh_edges(edges@, rotated_edges(d as int, rvn, row as nat)),
                pairs_below(rotated_edges(d as int, rvn, row as nat), n),
            decreases d - row,
        {
            assert(row * rvn + 2 * rvn <= rvn * (d + 1)) by (nonlinear_arith)
                requires
                    row < d,
                    rvn >= 0,
            ;
            let bias = row * row_vertex_num;
            let ghost pre = rotated_edges(d as int, rvn, row as nat);
            push_rotated_row_edges(&mut edges, bias, row_vertex_num, d, row % 2 == 0, Ghost(pre));
            proof {
                let added = rotated_row_edges(bias as int, rvn, d as int, row % 2 == 0);
                assert forall|e: int| 0 <= e < added.len() implies 0 <= (#[trigger] added[e]).0 < n && 0
                    <= added[e].1 < n by {
                    assert(e / 2 <= rvn - 1 && (e + 1) / 2 <= rvn - 1 || e % 2 == 0 && e / 2 <= rvn - 1);
                }
                lemma_pairs_below_add(pre, added, n);
                assert(pre + added =~= rotated_edges(d as int, rvn, (row + 1) as nat));
            }
            row = row + 1;
        }
        let mut code = ExampleCode { vertices: Vec::new(), edges };
        proof {
            assert forall|e: int| 0 <= e < code.edges@.len() implies (#[trigger] code.edges@[e]).vertices.0
                < vertex_num && code.edges@[e].vertices.1 < vertex_num by {
                let pairs = rotated_edges(d as int, rvn, d as nat);
                assert(0 <= pairs[e].0 < n);
            }
        }
        code.fill_vertices(vertex_num);
        let mut row: usize = 0;
        while row < d + 1
            invariant
                d >= 3,
                d + 1 <= vertex_num,
                row <= d + 1,
                row_vertex_num == (d - 1) / 2 + 1,
                rvn == row_vertex_num,
                vertex_num == row_vertex_num * (d + 1),
                vertex_num <= VertexNum::MAX,
                code.vertices@.len() == vertex_num,
                fresh_edges(code.edges@, rotated_edges(d as int, rvn, d as nat)),
                forall|v: int|
                    0 <= v < vertex_num ==> {
                        &&& (#[trigger] code.vertices@[v]).is_virtual == (v < row * rvn && rotated_virtual(
                            v,
                            rvn,
                        ))
                        &&& !code.vertices@[v].is_defect
                        &&& code.vertices@[v].neighbor_edges@ == incident_edges(code.edges@, v)
                    },
            decreases d + 1 - row,
        {
            assert(row * rvn + rvn <= rvn * (d + 1)) by (nonlinear_arith)
                requires
                    row < d + 1,
                    rvn >= 0,
            ;
            let bias = row * row_vertex_num;
            let ghost before = code.vertices@;
            let marked = if row % 2 == 0 {
                bias + row_vertex_num - 1
            } else {
                bias
            };
            code.set_vertex_virtual(marked);
            proof {
                assert forall|v: int| 0 <= v < vertex_num implies {
                    &&& (#[trigger] code.vertices@[v]).is_virtual == (v < (row + 1) * rvn && rotated_virtual(
                        v,
                        rvn,
                    ))
                    &&& !code.vertices@[v].is_defect
                    &&& code.vertices@[v].neighbor_edges@ == incident_edges(code.edges@, v)
                } by {
                    assert((row + 1) * rvn == bias + rvn) by (nonlinear_arith)
                        requires
                            bias == row * rvn,
                    ;
                    if bias <= v < bias + rvn {
                        vstd::arithmetic::div_mod::lemma_fundamental_div_mod_converse(v, rvn, row as int, v - bias);
                    }
                    if v != marked {
                        assert(code.vertices@[v] == before[v]);
                    }
                }
            }
            row = row + 1;
        }
        assert((d + 1) * rvn == vertex_num) by (nonlinear_arith)
            requires
                vertex_num == rvn * (d + 1),
        ;
        code
    }
}

/// the edges of the first `rows` rows of one layer of the rotated code of distance `d` whose
/// first vertex is `base`, each row holding `rvn` vertices
pub open spec fn rotated_layer_edges(base: int, d: int, rvn: int, rows: nat) -> Seq<(int, int)>
    decreases rows,
{
    if rows == 0 {
        Seq::empty()
    } else {
        let row = rows - 1;
        rotated_layer_edges(base, d, rvn, (rows - 1) as nat) + rotated_row_edges(
            base + row * rvn,
            rvn,
            d,
            row % 2 == 0,
        )
    }
}

/// the edges joining each of the `step` vertices of the layer at `base` to the same vertex of the
/// next layer, `step` vertices further
pub open spec fn layer_links(base: int, step: int) -> Seq<(int, int)> {
    Seq::new(step as nat, |k: int| (base + k, base + k + step))
}

/// the edges of the first `layers` of the `td` layers of the phenomenological rotated code of
/// distance `d` with rows of `rvn` vertices, each layer a rotated code joined to the next layer
pub open spec fn phenomenological_rotated_edges(d: int, rvn: int, td: int, layers: nat) -> Seq<(int, int)>
    decreases layers,
{
    if layers == 0 {
        Seq::empty()
    } else {
        let t = layers - 1;
        let tv = rvn * (d + 1);
        let with_layer = phenomenological_rotated_edges(d, rvn, td, (layers - 1) as nat)
            + rotated_layer_edges(t * tv, d, rvn, d as nat);
        if t + 1 < td {
            with_layer + layer_links(t * tv, tv)
        } else {
            with_layer
        }
    }
}

/// append the edges from each vertex of a layer to the next layer, see `layer_links`
fn push_layer_links(edges: &mut Vec<CodeEdge>, base: VertexIndex, step: VertexNum, Ghost(pairs): Ghost<Seq<(int, int)>>)
    requires
        base + 2 * step <= VertexIndex::MAX,
        fresh_edges(old(edges)@, pairs),
    ensures
        fresh_edges(final(edges)@, pairs + layer_links(base as int, step as int)),
{
    let ghost links = layer_links(base as int, step as int);
    let mut k: usize = 0;
    while k < step
        invariant
            base + 2 * step <= VertexIndex::MAX,
            k <= step,
            fresh_edges(edges@, pairs + links.take(k as int)),
            links == layer_links(base as int, step as int),
        decreases step - k,
    {
        edges.push(CodeEdge::new(base + k, base + k + step));
        proof {
            assert(pairs + links.take(k + 1) =~= (pairs + links.take(k as int)).push(links[k as int]));
        }
        k = k + 1;
    }
    proof {
        assert(links.take(step as int) =~= links);
    }
}

/// phenomenological noise model on a rotated surface code: several measurement rounds, each a
/// layer of the code capacity rotated code, with measurement errors joining each layer to the next
pub struct PhenomenologicalRotatedCode;

impl PhenomenologicalRotatedCode {
    /// the decoding graph of `noisy_measurements + 1` layers of the rotated code of odd distance
    /// `d >= 3`, each layer laid out as [`CodeCapacityRotatedCode`], and each vertex joined to the
    /// same vertex of the next layer
    pub fn create_code(d: VertexNum, noisy_measurements: VertexNum) -> (r: ExampleCode)
        requires
            d >= 3,
            d % 2 == 1,
            ((d - 1) / 2 + 1) * (d + 1) * (noisy_measurements + 1) <= VertexNum::MAX,
        ensures
            fresh_edges(
                r.edges@,
                phenomenological_rotated_edges(
                    d as int,
                    (d - 1) / 2 + 1,
                    noisy_measurements + 1,
                    (noisy_measurements + 1) as nat,
                ),
            ),
            r.vertices@.len() == ((d - 1) / 2 + 1) * (d + 1) * (noisy_measurements + 1),
            forall|v: int|
                0 <= v < ((d - 1) / 2 + 1) * (d + 1) * (noisy_measurements + 1) ==> {
                    &&& (#[trigger] r.vertices@[v]).is_virtual == rotated_virtual(v, (d - 1) / 2 + 1)
                    &&& !r.vertices@[v].is_defect
                    &&& r.vertices@[v].neighbor_edges@ == incident_edges(r.edges@, v)
                },
    {
        assert(noisy_measurements + 1 <= ((d - 1) / 2 + 1) * (d + 1) * (noisy_measurements + 1))
            by (nonlinear_arith)
            requires
                d >= 3,
        ;
        let row_vertex_num = (d - 1) / 2 + 1;
        let td = noisy_measurements + 1;
        assert(td <= row_vertex_num * (d + 1) * td && row_vertex_num * (d + 1) <= row_vertex_num * (d + 1) * td
            && d + 1 <= row_vertex_num * (d + 1)) by (nonlinear_arith)
            requires
                d >= 3,
                td >= 1,
                row_vertex_num >= 1,
        ;
        let t_vertex_num = row_vertex_num * (d + 1);
        let vertex_num = t_vertex_num * td;
        let ghost n = vertex_num as int;
        let ghost tv = t_vertex_num as int;
        let ghost rvn = row_vertex_num as int;
        let mut edges: Vec<CodeEdge> = Vec::new();
        let mut t: usize = 0;
        while t < td
            invariant
                d >= 3,
                d % 2 == 1,
                t <= td,
                row_vertex_num == (d - 1) / 2 + 1,
                rvn == row_vertex_num,
                t_vertex_num == rvn * (d + 1),
                vertex_num == t_vertex_num * td,
                vertex_num <= VertexNum::MAX,
                n == vertex_num,
                tv == t_vertex_num,
                fresh_edges(edges@, phenomenological_rotated_edges(d as int, rvn, td as int, t as nat)),
                pairs_below(phenomenological_rotated_edges(d as int, rvn, td as int, t as nat), n),
            decreases td - t,
        {
            assert((t + 1) * tv <= n && t * tv + tv == (t + 1) * tv) by (nonlinear_arith)
                requires
                    t < td,
                    n == tv * td,
                    tv >= 0,
            ;
            let t_bias = t * t_vertex_num;
            let ghost before_layer = phenomenological_rotated_edges(d as int, rvn, td as int, t as nat);
            let mut row: usize = 0;
            while row < d
                invariant
                    d >= 3,
                    d % 2 == 1,
                    row <= d,
                    row_vertex_num == (d - 1) / 2 + 1,
                    rvn == row_vertex_num,
                    t_vertex_num == rvn * (d + 1),
                    t_bias + t_vertex_num <= n,
                    n == vertex_num,
                    vertex_num <= VertexNum::MAX,
                    fresh_edges(edges@, before_layer + rotated_layer_edges(t_bias as int, d as int, rvn, row as nat)),
                    pairs_below(before_layer + rotated_layer_edges(t_bias as int, d as int, rvn, row as nat), n),
                decreases d - row,
            {
                assert(row * rvn + 2 * rvn <= rvn * (d + 1)) by (nonlinear_arith)
                    requires
                        row < d,
                        rvn >= 0,
                ;
                let bias = t_bias + row * row_vertex_num;
                let ghost pre = before_layer + rotated_layer_edges(t_bias as int, d as int, rvn, row as nat);
                push_rotated_row_edges(&mut edges, bias, row_vertex_num, d, row % 2 == 0, Ghost(pre));
                proof {
                    let added = rotated_row_edges(bias as int, rvn, d as int, row % 2 == 0);
                    assert forall|e: int| 0 <= e < added.len() implies 0 <= (#[trigger] added[e]).0 < n && 0
                        <= added[e].1 < n by {
                        assert(e / 2 <= rvn - 1 && (e + 1) / 2 <= rvn - 1 || e % 2 == 0 && e / 2 <= rvn - 1);
                    }
                    lemma_pairs_below_add(pre, added, n);
                    assert(pre + added =~= before_layer + rotated_layer_edges(
                        t_bias as int,
                        d as int,
                        rvn,
                        (row + 1) as nat,
                    ));
                }
                row = row + 1;
            }
            let ghost with_layer = before_layer + rotated_layer_edges(t_bias as int, d as int, rvn, d as nat);
            if t + 1 < td {
                assert((t + 2) * tv <= n && (t + 1) * tv + tv == (t + 2) * tv) by (nonlinear_arith)
                    requires
                        t + 1 < td,
                        n == tv * td,
                        tv >= 0,
                ;
                push_layer_links(&mut edges, t_bias, t_vertex_num, Ghost(with_layer));
                proof {
                    let links = layer_links(t_bias as int, tv);
                    assert(pairs_below(links, n));
                    lemma_pairs_below_add(with_layer, links, n);
                }
            }
            t = t + 1;
        }
        let mut code = ExampleCode { vertices: Vec::new(), edges };
        proof {
            assert forall|e: int| 0 <= e < code.edges@.len() implies (#[trigger] code.edges@[e]).vertices.0
                < vertex_num && code.edges@[e].vertices.1 < vertex_num by {
                let pairs = phenomenological_rotated_edges(d as int, rvn, td as int, td as nat);
                assert(0 <= pairs[e].0 < n);
            }
        }
        code.fill_vertices(vertex_num);
        assert(td * (d + 1) * rvn == vertex_num && td * (d + 1) <= vertex_num) by (nonlinear_arith)
            requires
                vertex_num == rvn * (d + 1) * td,
                rvn >= 1,
        ;
        let rows = td * (d + 1);
        let mut row: usize = 0;
        while row < rows
            invariant
                d >= 3,
                row <= rows,
                row_vertex_num == (d - 1) / 2 + 1,
                rvn == row_vertex_num,
                rows * rvn == vertex_num,
                vertex_num <= VertexNum::MAX,
                code.vertices@.len() == vertex_num,
                fresh_edges(code.edges@, phenomenological_rotated_edges(d as int, rvn, td as int, td as nat)),
                forall|v: int|
                    0 <= v < vertex_num ==> {
                        &&& (#[trigger] code.vertices@[v]).is_virtual == (v < row * rvn && rotated_virtual(
                            v,
                            rvn,
                        ))
                        &&& !code.vertices@[v].is_defect
                        &&& code.vertices@[v].neighbor_edges@ == incident_edges(code.edges@, v)
                    },
            decreases rows - row,
        {
            assert(row * rvn + rvn <= rows * rvn) by (nonlinear_arith)
                requires
                    row < rows,
                    rvn >= 0,
            ;
            let bias = row * row_vertex_num;
            let ghost before = code.vertices@;
            let marked = if row % 2 == 0 {
                bias + row_vertex_num - 1
            } else {
                bias
            };
            code.set_vertex_virtual(marked);
            proof {
                assert forall|v: int| 0 <= v < vertex_num implies {
                    &&& (#[trigger] code.vertices@[v]).is_virtual == (v < (row + 1) * rvn && rotated_virtual(
                        v,
                        rvn,
                    ))
                    &&& !code.vertices@[v].is_defect
                    &&& code.vertices@[v].neighbor_edges@ == incident_edges(code.edges@, v)
                } by {
                    assert((row + 1) * rvn == bias + rvn) by (nonlinear_arith)
                        requires
                            bias == row * rvn,
                    ;
                    if bias <= v < bias + rvn {
                        vstd::arithmetic::div_mod::lemma_fundamental_div_mod_converse(v, rvn, row as int, v - bias);
                    }
                    if v != marked {
                        assert(code.vertices@[v] == before[v]);
                    }
                }
            }
            row = row + 1;
        }
        code
    }
}

/// the edges from vertex `bias + i` of row `row` of a layer of the circuit-level planar code of
/// distance `d` to the next layer, `tv` vertices further: to the same vertex, and diagonally to the
/// next vertex of the same row, to the same vertex of the next row and to the next vertex of the
/// next row, where those are non-boundary vertices
pub open spec fn diagonal_links(bias: int, row: int, i: int, d: int, tv: int) -> Seq<(int, int)> {
    let a = bias + i;
    let same = seq![(a, a + tv)];
    let right = if i + 1 < d - 1 {
        same.push((a, a + tv + 1))
    } else {
        same
    };
    let down = if row + 1 < d {
        right.push((a, a + tv + d + 1))
    } else {
        right
    };
    if row + 1 < d && i + 1 < d - 1 {
        down.push((a, a + tv + d + 2))
    } else {
        down
    }
}

/// the edges from the first `count` vertices of the row at `bias` to the next layer
pub open spec fn diagonal_row_links(bias: int, row: int, d: int, tv: int, count: nat) -> Seq<(int, int)>
    decreases count,
{
    if count == 0 {
        Seq::empty()
    } else {
        diagonal_row_links(bias, row, d, tv, (count - 1) as nat) + diagonal_links(bias, row, count - 1, d, tv)
    }
}

/// the edges from the non-boundary vertices of the first `rows` rows of the layer at `base` to the
/// next layer, `tv` vertices further
pub open spec fn diagonal_between_layers(base: int, d: int, tv: int, rows: nat) -> Seq<(int, int)>
    decreases rows,
{
    if rows == 0 {
        Seq::empty()
    } else {
        let row = rows - 1;
        diagonal_between_layers(base, d, tv, (rows - 1) as nat) + diagonal_row_links(
            base + row * (d + 1),
            row,
            d,
            tv,
            (d - 1) as nat,
        )
    }
}

/// the edges of the first `layers` of the `td` layers of the circuit-level planar code of distance
/// `d`, each layer a planar code joined to the next layer also by diagonal edges
pub open spec fn circuit_level_edges(d: int, td: int, layers: nat) -> Seq<(int, int)>
    decreases layers,
{
    if layers == 0 {
        Seq::empty()
    } else {
        let t = layers - 1;
        let t_bias = t * ((d + 1) * d);
        let with_layer = circuit_level_edges(d, td, (layers - 1) as nat) + layer_edges(t_bias, d, d as nat);
        if t + 1 < td {
            with_layer + diagonal_between_layers(t_bias, d, (d + 1) * d, d as nat)
        } else {
            with_layer
        }
    }
}

/// append one edge to new edges joining `pairs`
fn push_fresh_edge(edges: &mut Vec<CodeEdge>, a: VertexIndex, b: VertexIndex, Ghost(pairs): Ghost<Seq<(int, int)>>)
    requires
        fresh_edges(old(edges)@, pairs),
    ensures
        fresh_edges(final(edges)@, pairs.push((a as int, b as int))),
{
    edges.push(CodeEdge::new(a, b));
}

/// append the edges from one vertex to the next layer, see `diagonal_links`
fn push_diagonal_links(
    edges: &mut Vec<CodeEdge>,
    bias: VertexIndex,
    row: VertexNum,
    i: VertexNum,
    d: VertexNum,
    tv: VertexNum,
    Ghost(pairs): Ghost<Seq<(int, int)>>,
)
    requires
        row < d,
        i + 1 < d,
        bias + i + tv + 1 <= VertexIndex::MAX,
        row + 1 < d ==> bias + i + tv + d + 2 <= VertexIndex::MAX,
        fresh_edges(old(edges)@, pairs),
    ensures
        fresh_edges(final(edges)@, pairs + diagonal_links(bias as int, row as int, i as int, d as int, tv as int)),
{
    let a = bias + i;
    let ghost mut acc: Seq<(int, int)> = seq![(a as int, (a + tv) as int)];
    push_fresh_edge(edges, a, a + tv, Ghost(pairs));
    assert(pairs.push((a as int, (a + tv) as int)) =~= pairs + acc);
    if i + 1 < d - 1 {
        push_fresh_edge(edges, a, a + tv + 1, Ghost(pairs + acc));
        proof {
            assert((pairs + acc).push((a as int, (a + tv + 1) as int)) =~= pairs + acc.push((a as int, (a + tv + 1) as int)));
            acc = acc.push((a as int, (a + tv + 1) as int));
        }
    }
    if row + 1 < d {
        push_fresh_edge(edges, a, a + tv + d + 1, Ghost(pairs + acc));
        proof {
            assert((pairs + acc).push((a as int, (a + tv + d + 1) as int)) =~= pairs + acc.push(
                (a as int, (a + tv + d + 1) as int),
            ));
            acc = acc.push((a as int, (a + tv + d + 1) as int));
        }
    }
    if row + 1 < d && i + 1 < d - 1 {
        push_fresh_edge(edges, a, a + tv + d + 2, Ghost(pairs + acc));
        proof {
            assert((pairs + acc).push((a as int, (a + tv + d + 2) as int)) =~= pairs + acc.push(
                (a as int, (a + tv + d + 2) as int),
            ));
            acc = acc.push((a as int, (a + tv + d + 2) as int));
        }
    }
    assert(acc =~= diagonal_links(bias as int, row as int, i as int, d as int, tv as int));
}

/// the edges from the vertices of a row to the next layer stay below `n` when the next layer does
proof fn lemma_diagonal_row_below(bias: int, row: int, d: int, tv: int, count: nat, n: int)
    requires
        d >= 3,
        bias >= 0,
        tv >= 0,
        0 <= row < d,
        count <= d - 1,
        row + 1 < d ==> bias + tv + 2 * d + 1 <= n,
        bias + tv + d - 1 <= n,
    ensures
        pairs_below(diagonal_row_links(bias, row, d, tv, count), n),
    decreases count,
{
    if count > 0 {
        lemma_diagonal_row_below(bias, row, d, tv, (count - 1) as nat, n);
        let i = count - 1;
        let links = diagonal_links(bias, row, i, d, tv);
        assert forall|e: int| 0 <= e < links.len() implies 0 <= (#[trigger] links[e]).0 < n && 0 <= links[e].1 < n by {
        }
        lemma_pairs_below_add(diagonal_row_links(bias, row, d, tv, (count - 1) as nat), links, n);
    }
}

/// circuit-level noise model on a planar code: the layers of the phenomenological planar code,
/// where a measurement error can also be joined diagonally to the neighbouring vertices of the next
/// layer
pub struct CircuitLevelPlanarCode;

impl CircuitLevelPlanarCode {
    /// the decoding graph of `noisy_measurements + 1` layers of the planar code of odd distance
    /// `d >= 3`, each layer laid out as [`CodeCapacityPlanarCode`], and each non-virtual vertex
    /// joined to the next layer as `diagonal_links` says
    pub fn create_code(d: VertexNum, noisy_measurements: VertexNum) -> (r: ExampleCode)
        requires
            d >= 3,
            d % 2 == 1,
            (d + 1) * d * (noisy_measurements + 1) <= VertexNum::MAX,
        ensures
            fresh_edges(
                r.edges@,
                circuit_level_edges(d as int, noisy_measurements + 1, (noisy_measurements + 1) as nat),
            ),
            r.vertices@.len() == (d + 1) * d * (noisy_measurements + 1),
            forall|v: int|
                0 <= v < (d + 1) * d * (noisy_measurements + 1) ==> {
                    &&& (#[trigger] r.vertices@[v]).is_virtual == (v % (d + 1) >= d - 1)
                    &&& !r.vertices@[v].is_defect
                    &&& r.vertices@[v].neighbor_edges@ == incident_edges(r.edges@, v)
                },
    {
        assert(d + 1 <= (d + 1) * d * (noisy_measurements + 1) && noisy_measurements + 1 <= (d + 1) * d * (
        noisy_measurements + 1)) by (nonlinear_arith)
            requires
                d >= 3,
        ;
        let row_vertex_num = (d - 1) + 2;
        let td = noisy_measurements + 1;
        assert(td <= (d + 1) * d * td && (d + 1) * d <= (d + 1) * d * td) by (nonlinear_arith)
            requires
                d >= 3,
                td >= 1,
        ;
        let t_vertex_num = row_vertex_num * d;
        let vertex_num = t_vertex_num * td;
        let ghost n = vertex_num as int;
        let ghost tv = t_vertex_num as int;
        let mut edges: Vec<CodeEdge> = Vec::new();
        let mut t: usize = 0;
        while t < td
            invariant
                d >= 3,
                t <= td,
                row_vertex_num == d + 1,
                t_vertex_num == (d + 1) * d,
                vertex_num == t_vertex_num * td,
                vertex_num <= VertexNum::MAX,
                n == vertex_num,
                tv == t_vertex_num,
                td == noisy_measurements + 1,
                fresh_edges(edges@, circuit_level_edges(d as int, td as int, t as nat)),
                pairs_below(circuit_level_edges(d as int, td as int, t as nat), n),
            decreases td - t,
        {
            assert((t + 1) * tv <= n && t * tv + tv == (t + 1) * tv) by (nonlinear_arith)
                requires
                    t < td,
                    n == tv * td,
                    tv >= 0,
            ;
            let t_bias = t * t_vertex_num;
            let ghost before_layer = circuit_level_edges(d as int, td as int, t as nat);
            let mut row: usize = 0;
            while row < d
                invariant
                    d >= 3,
                    row <= d,
                    t < td,
                    row_vertex_num == d + 1,
                    t_vertex_num == (d + 1) * d,
                    t_bias == t * t_vertex_num,
                    t_bias + t_vertex_num <= n,
                    n == vertex_num,
                    vertex_num <= VertexNum::MAX,
                    fresh_edges(edges@, before_layer + layer_edges(t_bias as int, d as int, row as nat)),
                    pairs_below(before_layer + layer_edges(t_bias as int, d as int, row as nat), n),
                decreases d - row,
            {
                assert(t_bias + row * (d + 1) + (d + 1) <= t_bias + (d + 1) * d) by (nonlinear_arith)
                    requires
                        row < d,
                ;
                let bias = t_bias + row * row_vertex_num;
                let ghost pre = before_layer + layer_edges(t_bias as int, d as int, row as nat);
                push_row_edges(&mut edges, bias, d, Ghost(pre));
                let ghost with_row = pre + row_edges(bias as int, d as int);
                proof {
                    lemma_row_below(bias as int, d as int, n);
                    lemma_pairs_below_add(pre, row_edges(bias as int, d as int), n);
                }
                if row + 1 < d {
                    assert(t_bias + row * (d + 1) + (d + 1) + (d + 1) <= t_bias + (d + 1) * d) by (nonlinear_arith)
                        requires
                            row + 1 < d,
                    ;
                    push_vertical_edges(&mut edges, bias, d, row_vertex_num, Ghost(with_row));
                    proof {
                        lemma_vertical_below(bias as int, d as int, (d + 1) as int, n);
                        lemma_pairs_below_add(with_row, vertical_edges(bias as int, d as int, (d + 1) as int), n);
                        assert(with_row + vertical_edges(bias as int, d as int, (d + 1) as int) =~= before_layer
                            + layer_edges(t_bias as int, d as int, (row + 1) as nat));
                    }
                } else {
                    proof {
                        assert(with_row =~= before_layer + layer_edges(t_bias as int, d as int, (row + 1) as nat));
                    }
                }
                row = row + 1;
            }
            let ghost with_layer = before_layer + layer_edges(t_bias as int, d as int, d as nat);
            if t + 1 < td {
                assert((t + 2) * tv <= n && (t + 1) * tv + tv == (t + 2) * tv) by (nonlinear_arith)
                    requires
                        t + 1 < td,
                        n == tv * td,
                        tv >= 0,
                ;
                let mut row: usize = 0;
                while row < d
                    invariant
                        d >= 3,
                        row <= d,
                        t + 1 < td,
                        row_vertex_num == d + 1,
                        t_vertex_num == (d + 1) * d,
                        tv == t_vertex_num,
                        t_bias == t * t_vertex_num,
                        t_bias + 2 * t_vertex_num <= n,
                        n == vertex_num,
                        vertex_num <= VertexNum::MAX,
                        fresh_edges(
                            edges@,
                            with_layer + diagonal_between_layers(t_bias as int, d as int, tv, row as nat),
                        ),
                        pairs_below(with_layer + diagonal_between_layers(t_bias as int, d as int, tv, row as nat), n),
                    decreases d - row,
                {
                    assert(t_bias + row * (d + 1) + (d + 1) <= t_bias + (d + 1) * d) by (nonlinear_arith)
                        requires
                            row < d,
                    ;
                    assert(row + 1 < d ==> t_bias + row * (d + 1) + 2 * (d + 1) <= t_bias + (d + 1) * d)
                        by (nonlinear_arith)
                        requires
                            row < d,
                    ;
                    let bias = t_bias + row * row_vertex_num;
                    let ghost pre = with_layer + diagonal_between_layers(t_bias as int, d as int, tv, row as nat);
                    let mut i: usize = 0;
                    while i < d - 1
                        invariant
                            d >= 3,
                            row < d,
                            i <= d - 1,
                            tv == t_vertex_num,
                            bias + d + 1 + t_vertex_num <= n,
                            row + 1 < d ==> bias + 2 * (d + 1) + t_vertex_num <= n,
                            n <= VertexNum::MAX,
                            fresh_edges(edges@, pre + diagonal_row_links(bias as int, row as int, d as int, tv, i as nat)),
                        decreases d - 1 - i,
                    {
                        let ghost links = diagonal_row_links(bias as int, row as int, d as int, tv, i as nat);
                        push_diagonal_links(&mut edges, bias, row, i, d, t_vertex_num, Ghost(pre + links));
                        proof {
                            assert(pre + links + diagonal_links(bias as int, row as int, i as int, d as int, tv)
                                =~= pre + diagonal_row_links(bias as int, row as int, d as int, tv, (i + 1) as nat));
                        }
                        i = i + 1;
                    }
                    proof {
                        let row_links = diagonal_row_links(bias as int, row as int, d as int, tv, (d - 1) as nat);
                        lemma_diagonal_row_below(bias as int, row as int, d as int, tv, (d - 1) as nat, n);
                        lemma_pairs_below_add(pre, row_links, n);
                        assert(pre + row_links =~= with_layer + diagonal_between_layers(
                            t_bias as int,
                            d as int,
                            tv,
                            (row + 1) as nat,
                        ));
                    }
                    row = row + 1;
                }
            }
            t = t + 1;
        }
        let mut code = ExampleCode { vertices: Vec::new(), edges };
        proof {
            assert forall|e: int| 0 <= e < code.edges@.len() implies (#[trigger] code.edges@[e]).vertices.0
                < vertex_num && code.edges@[e].vertices.1 < vertex_num by {
                let pairs = circuit_level_edges(d as int, td as int, td as nat);
                assert(0 <= pairs[e].0 < n);
            }
        }
        code.fill_vertices(vertex_num);
        assert(td * d <= vertex_num) by (nonlinear_arith)
            requires
                vertex_num == (d + 1) * d * td,
                d >= 3,
                td >= 1,
        ;
        let rows = td * d;
        assert(rows * (d + 1) == vertex_num) by (nonlinear_arith)
            requires
                rows == td * d,
                vertex_num == (d + 1) * d * td,
        ;
        let mut row: usize = 0;
        while row < rows
            invariant
                d >= 3,
                row <= rows,
                row_vertex_num == d + 1,
                rows * (d + 1) == vertex_num,
                vertex_num <= VertexNum::MAX,
                code.vertices@.len() == vertex_num,
                fresh_edges(code.edges@, circuit_level_edges(d as int, td as int, td as nat)),
                forall|v: int|
                    0 <= v < vertex_num ==> {
                        &&& (#[trigger] code.vertices@[v]).is_virtual == (v < row * (d + 1) && v % (d
                            + 1) >= d - 1)
                        &&& !code.vertices@[v].is_defect
                        &&& code.vertices@[v].neighbor_edges@ == incident_edges(code.edges@, v)
                    },
            decreases rows - row,
        {
            assert(row * (d + 1) + d + 1 <= rows * (d + 1)) by (nonlinear_arith)
                requires
                    row < rows,
            ;
            let bias = row * row_vertex_num;
            let ghost before = code.vertices@;
            code.set_vertex_virtual(bias + d - 1);
            let ghost middle = code.vertices@;
            code.set_vertex_virtual(bias + d);
            proof {
                assert forall|v: int| 0 <= v < vertex_num implies {
                    &&& (#[trigger] code.vertices@[v]).is_virtual == (v < (row + 1) * (d + 1) && v % (d
                        + 1) >= d - 1)
                    &&& !code.vertices@[v].is_defect
                    &&& code.vertices@[v].neighbor_edges@ == incident_edges(code.edges@, v)
                } by {
                    assert((row + 1) * (d + 1) == bias + d + 1) by (nonlinear_arith)
                        requires
                            bias == row * (d + 1),
                    ;
                    if bias <= v <= bias + d {
                        vstd::arithmetic::div_mod::lemma_fundamental_div_mod_converse(
                            v,
                            d + 1,
                            row as int,
                            v - bias,
                        );
                    }
                    if v != bias + d {
                        assert(code.vertices@[v] == middle[v]);
                    }
                    if v != bias + d - 1 {
                        assert(middle[v] == before[v]);
                    }
                }
            }
            row = row + 1;
        }
        code
    }
}

} // verus!
