//! Basic types shared by every module: indices, weights, index ranges, the
//! decoding graph description and the partition plan.

use vstd::prelude::*;

verus! {

/// weight of an edge; all weights in a decoding graph are non-negative even numbers
pub type Weight = i64;

pub type EdgeIndex = usize;

pub type VertexIndex = usize;

pub type NodeIndex = usize;

pub type DefectIndex = usize;

pub type VertexNodeIndex = usize;

pub type VertexNum = usize;

pub type NodeNum = usize;

/// timestamp used to clear a large structure lazily
pub type FastClearTimestamp = usize;

/// a half-open range `[start, end)` of vertex or node indices
#[derive(Debug, Clone, Copy, PartialEq, Eq)]
pub struct IndexRange {
    pub range_start: VertexNodeIndex,
    pub range_end: VertexNodeIndex,
}

pub type VertexRange = IndexRange;

pub type NodeRange = IndexRange;

impl IndexRange {
    /// a range is valid when it does not end before it starts
    pub open spec fn wf(&self) -> bool {
        self.range_start <= self.range_end
    }

    /// the set of indices covered by the range
    pub open spec fn index_set(&self) -> Set<int> {
        Set::new(|i: int| self.range_start <= i < self.range_end)
    }

    pub fn new(start: VertexNodeIndex, end: VertexNodeIndex) -> (r: Self)
        requires
            start <= end,
        ensures
            r.range_start == start,
            r.range_end == end,
            r.wf(),
    {
        IndexRange { range_start: start, range_end: end }
    }

    pub fn new_length(start: VertexNodeIndex, length: usize) -> (r: Self)
        requires
            start + length <= usize::MAX,
        ensures
            r.range_start == start,
            r.range_end == start + length,
            r.wf(),
    {
        IndexRange { range_start: start, range_end: start + length }
    }

    pub fn is_empty(&self) -> (r: bool)
        ensures
            r == (self.range_start == self.range_end),
    {
        self.range_end == self.range_start
    }

    pub fn len(&self) -> (r: usize)
        requires
            self.wf(),
        ensures
            r == self.range_end - self.range_start,
    {
        self.range_end - self.range_start
    }

    pub fn start(&self) -> (r: VertexNodeIndex)
        ensures
            r == self.range_start,
    {
        self.range_start
    }

    pub fn end(&self) -> (r: VertexNodeIndex)
        ensures
            r == self.range_end,
    {
        self.range_end
    }

    pub fn append_by(&mut self, append_count: usize)
        requires
            old(self).range_end + append_count <= usize::MAX,
        ensures
            final(self).range_start == old(self).range_start,
            final(self).range_end == old(self).range_end + append_count,
    {
        self.range_end = self.range_end + append_count;
    }

    pub fn bias_by(&mut self, bias: usize)
        requires
            old(self).range_end + bias <= usize::MAX,
            old(self).wf(),
        ensures
            final(self).range_start == old(self).range_start + bias,
            final(self).range_end == old(self).range_end + bias,
    {
        self.range_start = self.range_start + bias;
        self.range_end = self.range_end + bias;
    }

    pub fn contains(&self, vertex_index: VertexNodeIndex) -> (r: bool)
        ensures
            r == (self.range_start <= vertex_index && vertex_index < self.range_end),
            r == self.index_set().contains(vertex_index as int),
    {
        vertex_index >= self.range_start && vertex_index < self.range_end
    }

    /// fuse two ranges together, returning (the whole range, the interfacing range)
    pub fn fuse(&self, other: &Self) -> (r: (Self, Self))
        requires
            self.wf(),
            other.wf(),
            self.range_end <= other.range_start,
        ensures
            r.0.range_start == self.range_start,
            r.0.range_end == other.range_end,
            r.1.range_start == self.range_end,
            r.1.range_end == other.range_start,
            r.0.wf(),
            r.1.wf(),
    {
        (
            IndexRange::new(self.range_start, other.range_end),
            IndexRange::new(self.range_end, other.range_start),
        )
    }
}

/// The whole range `[a.start, b.end)` is made of `a`, the interface between
/// them and `b`, which do not overlap.
pub proof fn lemma_fuse_partitions_whole(a: IndexRange, b: IndexRange)
    requires
        a.wf(),
        b.wf(),
        a.range_end <= b.range_start,
    ensures
        ({
            let whole = IndexRange { range_start: a.range_start, range_end: b.range_end };
            let interface = IndexRange { range_start: a.range_end, range_end: b.range_start };
            &&& whole.index_set() == a.index_set() + interface.index_set() + b.index_set()
            &&& a.index_set().disjoint(interface.index_set())
            &&& a.index_set().disjoint(b.index_set())
            &&& interface.index_set().disjoint(b.index_set())
        }),
{
    let whole = IndexRange { range_start: a.range_start, range_end: b.range_end };
    let interface = IndexRange { range_start: a.range_end, range_end: b.range_start };
    assert(whole.index_set() =~= a.index_set() + interface.index_set() + b.index_set());
}

/// the decoding graph: vertices, weighted edges and the virtual (boundary) vertices
#[derive(Debug, Clone)]
pub struct SolverInitializer {
    pub vertex_num: VertexNum,
    pub weighted_edges: Vec<(VertexIndex, VertexIndex, Weight)>,
    pub virtual_vertices: Vec<VertexIndex>,
}

impl SolverInitializer {
    pub fn new(
        vertex_num: VertexNum,
        weighted_edges: Vec<(VertexIndex, VertexIndex, Weight)>,
        virtual_vertices: Vec<VertexIndex>,
    ) -> (r: Self)
        ensures
            r.vertex_num == vertex_num,
            r.weighted_edges@ == weighted_edges@,
            r.virtual_vertices@ == virtual_vertices@,
    {
        SolverInitializer { vertex_num, weighted_edges, virtual_vertices }
    }

    /// every edge connects two vertices of the graph
    pub open spec fn edges_in_range(&self) -> bool {
        forall|e: int|
            0 <= e < self.weighted_edges@.len() ==> {
                &&& (#[trigger] self.weighted_edges@[e]).0 < self.vertex_num
                &&& self.weighted_edges@[e].1 < self.vertex_num
            }
    }

    /// every virtual vertex is a vertex of the graph
    pub open spec fn virtual_in_range(&self) -> bool {
        forall|i: int|
            0 <= i < self.virtual_vertices@.len() ==> #[trigger] self.virtual_vertices@[i]
                < self.vertex_num
    }
}

/// the part of the decoding graph that one unit of a partitioned dual module holds
#[derive(Debug, Clone)]
pub struct PartitionedSolverInitializer {
    /// unit index
    pub unit_index: usize,
    /// the number of all vertices (including those partitioned into other serial modules)
    pub vertex_num: VertexNum,
    /// the number of all edges (including those partitioned into other serial modules)
    pub edge_num: usize,
    /// vertices exclusively owned by this partition; this part must be a continuous range
    pub owning_range: VertexRange,
    /// applicable when all the owning vertices are partitioned (i.e. this belongs to a fusion
    /// unit): the owning unit as (unit index, whether it is enabled)
    pub owning_interface: Option<(usize, bool)>,
    /// the ancestor units whose vertices are mirrored here, parent first: each as (unit index,
    /// whether it is enabled) together with the mirrored vertices and whether each is virtual
    pub interfaces: Vec<((usize, bool), Vec<(VertexIndex, bool)>)>,
    /// weighted edges `(i, j, weight, edge_index)`, where each end is either owned or mirrored
    pub weighted_edges: Vec<(VertexIndex, VertexIndex, Weight, EdgeIndex)>,
    /// the virtual vertices
    pub virtual_vertices: Vec<VertexIndex>,
}

/// the measurement outcome to decode: defect vertices, erased edges and re-weighted edges
#[derive(Debug, Clone)]
pub struct SyndromePattern {
    pub defect_vertices: Vec<VertexIndex>,
    pub erasures: Vec<EdgeIndex>,
    pub dynamic_weights: Vec<(EdgeIndex, Weight)>,
}

impl SyndromePattern {
    pub fn new(defect_vertices: Vec<VertexIndex>, erasures: Vec<EdgeIndex>) -> (r: Self)
        ensures
            r.defect_vertices@ == defect_vertices@,
            r.erasures@ == erasures@,
            r.dynamic_weights@.len() == 0,
    {
        SyndromePattern { defect_vertices, erasures, dynamic_weights: Vec::new() }
    }

    pub fn new_dynamic_weights(
        defect_vertices: Vec<VertexIndex>,
        dynamic_weights: Vec<(EdgeIndex, Weight)>,
    ) -> (r: Self)
        ensures
            r.defect_vertices@ == defect_vertices@,
            r.erasures@.len() == 0,
            r.dynamic_weights@ == dynamic_weights@,
    {
        SyndromePattern { defect_vertices, erasures: Vec::new(), dynamic_weights }
    }

    pub fn new_vertices(defect_vertices: Vec<VertexIndex>) -> (r: Self)
        ensures
            r.defect_vertices@ == defect_vertices@,
            r.erasures@.len() == 0,
            r.dynamic_weights@.len() == 0,
    {
        Self::new(defect_vertices, Vec::new())
    }

    pub fn new_empty() -> (r: Self)
        ensures
            r.defect_vertices@.len() == 0,
            r.erasures@.len() == 0,
            r.dynamic_weights@.len() == 0,
    {
        Self::new(Vec::new(), Vec::new())
    }
}

/// a partition plan: the vertex ranges of the leaf units and the order in which
/// units are fused; fusion `i` creates unit `partitions.len() + i`
#[derive(Debug, Clone)]
pub struct PartitionConfig {
    pub vertex_num: VertexNum,
    pub partitions: Vec<VertexRange>,
    pub fusions: Vec<(usize, usize)>,
}

impl PartitionConfig {
    /// by default a single partition covering all vertices and no fusion
    pub fn new(vertex_num: VertexNum) -> (r: Self)
        ensures
            r.vertex_num == vertex_num,
            r.partitions@ == seq![IndexRange { range_start: 0, range_end: vertex_num }],
            r.fusions@.len() == 0,
    {
        PartitionConfig {
            vertex_num,
            partitions: vec![IndexRange::new(0, vertex_num)],
            fusions: Vec::new(),
        }
    }
}

/// `reordered[new] == old` is a bijection of `0..n`: the new index of `old`
pub open spec fn is_permutation(reordered: Seq<usize>) -> bool {
    &&& forall|i: int| 0 <= i < reordered.len() ==> #[trigger] reordered[i] < reordered.len()
    &&& forall|i: int, j: int|
        0 <= i < j < reordered.len() ==> #[trigger] reordered[i] != #[trigger] reordered[j]
}

/// the inverse of a reordering: `r[old_index] == Some(new_index)` exactly when
/// `reordered_vertices[new_index] == old_index`
pub fn build_old_to_new(reordered_vertices: &[VertexIndex]) -> (r: Vec<Option<VertexIndex>>)
    requires
        is_permutation(reordered_vertices@),
    ensures
        r@.len() == reordered_vertices@.len(),
        forall|o: int|
            0 <= o < r@.len() ==> match #[trigger] r@[o] {
                Some(v) => v < r@.len() && reordered_vertices@[v as int] == o,
                None => false,
            },
{
    let n = reordered_vertices.len();
    let mut old_to_new: Vec<Option<VertexIndex>> = Vec::new();
    let mut i: usize = 0;
    while i < n
        invariant
            i <= n,
            n == reordered_vertices@.len(),
            old_to_new@.len() == i,
            forall|k: int| 0 <= k < i ==> old_to_new@[k] is None,
        decreases n - i,
    {
        old_to_new.push(None);
        i = i + 1;
    }
    let mut new_index: usize = 0;
    while new_index < n
        invariant
            new_index <= n,
            n == reordered_vertices@.len(),
            old_to_new@.len() == n,
            is_permutation(reordered_vertices@),
            forall|o: int|
                0 <= o < n ==> match #[trigger] old_to_new@[o] {
                    Some(v) => v < new_index && reordered_vertices@[v as int] == o,
                    None => forall|j: int| 0 <= j < new_index ==> reordered_vertices@[j] != o,
                },
        decreases n - new_index,
    {
        let old_index = reordered_vertices[new_index];
        old_to_new.set(old_index, Some(new_index));
        new_index = new_index + 1;
    }
    // every old index appears exactly once, so each old index now has an entry
    assert forall|o: int| 0 <= o < n implies #[trigger] old_to_new@[o] is Some by {
        if old_to_new@[o] is None {
            lemma_permutation_surjective(reordered_vertices@, o);
        }
    }
    old_to_new
}

/// translate defect vertices given with their old indices into the new indices,
/// where `reordered_vertices[new_index] == old_index`
pub fn translated_defect_to_reordered(
    reordered_vertices: &Vec<VertexIndex>,
    old_defect_vertices: &Vec<VertexIndex>,
) -> (r: Vec<VertexIndex>)
    requires
        is_permutation(reordered_vertices@),
        forall|k: int|
            0 <= k < old_defect_vertices@.len() ==> #[trigger] old_defect_vertices@[k]
                < reordered_vertices@.len(),
    ensures
        r@.len() == old_defect_vertices@.len(),
        forall|k: int|
            0 <= k < r@.len() ==> {
                &&& #[trigger] r@[k] < reordered_vertices@.len()
                &&& reordered_vertices@[r@[k] as int] == old_defect_vertices@[k]
            },
{
    let n = reordered_vertices.len();
    let old_to_new = build_old_to_new(reordered_vertices.as_slice());
    let mut r: Vec<VertexIndex> = Vec::new();
    let mut k: usize = 0;
    while k < old_defect_vertices.len()
        invariant
            k <= old_defect_vertices@.len(),
            n == reordered_vertices@.len(),
            old_to_new@.len() == n,
            forall|k: int|
                0 <= k < old_defect_vertices@.len() ==> #[trigger] old_defect_vertices@[k] < n,
            forall|o: int|
                0 <= o < n ==> match #[trigger] old_to_new@[o] {
                    Some(v) => v < n && reordered_vertices@[v as int] == o,
                    None => false,
                },
            r@.len() == k,
            forall|j: int|
                0 <= j < k ==> {
                    &&& #[trigger] r@[j] < n
                    &&& reordered_vertices@[r@[j] as int] == old_defect_vertices@[j]
                },
        decreases old_defect_vertices@.len() - k,
    {
        let old = old_defect_vertices[k];
        match old_to_new[old] {
            Some(v) => {
                r.push(v);
            },
            None => {},
        }
        k = k + 1;
    }
    r
}

/// an injective map of `0..n` into `0..n` reaches every index
pub proof fn lemma_permutation_surjective(reordered: Seq<usize>, o: int)
    requires
        is_permutation(reordered),
        0 <= o < reordered.len(),
    ensures
        exists|j: int| 0 <= j < reordered.len() && reordered[j] == o,
{
    let n = reordered.len();
    let image = Set::new(|v: int| exists|j: int| 0 <= j < n && reordered[j] == v);
    let domain = Set::new(|j: int| 0 <= j < n);
    vstd::set_lib::lemma_int_range(0, n as int);
    assert(domain =~= vstd::set_lib::set_int_range(0, n as int));
    let f = |j: int| reordered[j] as int;
    assert forall|a: int, b: int| domain.contains(a) && domain.contains(b) && f(a) == f(b) implies a
        == b by {
        if a < b {
            assert(reordered[a] != reordered[b]);
        } else if b < a {
            assert(reordered[b] != reordered[a]);
        }
    }
    assert forall|v: int| image.contains(v) implies domain.map(f).contains(v) by {
        let j = choose|j: int| 0 <= j < n && reordered[j] == v;
        assert(domain.contains(j) && f(j) == v);
    }
    assert forall|v: int| domain.map(f).contains(v) implies image.contains(v) by {
        let j = choose|j: int| domain.contains(j) && f(j) == v;
        assert(0 <= j < n && reordered[j] == v);
    }
    assert(image =~= domain.map(f));
    vstd::set_lib::lemma_map_size(domain, image, f);
    assert(image.subset_of(domain));
    vstd::set_lib::lemma_subset_equality(image, domain);
    assert(domain.contains(o));
    assert(image.contains(o));
}

} // verus!
