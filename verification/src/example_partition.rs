//! Example Partition
//!
//! Partition plans for some of the example codes: which vertex ranges form the
//! leaf units, and in which order the units are fused.
//!

use crate::util::{IndexRange, PartitionConfig, VertexIndex, VertexNum, VertexRange};

use vstd::prelude::*;

verus! {

/// the range `[start, end)` as a value
pub open spec fn range_of(start: int, end: int) -> IndexRange {
    IndexRange { range_start: start as usize, range_end: end as usize }
}

/// no partition
pub struct NoPartition {}

impl NoPartition {
    pub fn new() -> (r: Self) {
        NoPartition {  }
    }

    /// a single unit holding every vertex
    pub fn build_partition(&self, vertex_num: VertexNum) -> (r: PartitionConfig)
        ensures
            r.vertex_num == vertex_num,
            r.partitions@ == seq![range_of(0, vertex_num as int)],
            r.fusions@.len() == 0,
    {
        PartitionConfig::new(vertex_num)
    }

    /// no reordering is needed
    pub fn build_reordered_vertices(&self, vertex_num: VertexNum) -> (r: Option<Vec<VertexIndex>>)
        ensures
            r is None,
    {
        None
    }

    /// defect vertices keep their indices
    pub fn re_index_defect_vertices(
        &self,
        vertex_num: VertexNum,
        defect_vertices: &Vec<VertexIndex>,
    ) -> (r: Vec<VertexIndex>)
        ensures
            r@ == defect_vertices@,
    {
        defect_vertices.clone()
    }
}

/// partition into top half and bottom half
pub struct CodeCapacityPlanarCodeVerticalPartitionHalf {
    pub d: VertexNum,
    /// the row of splitting: in the visualization tool, the top row is the 1st row, the bottom row is the d-th row
    pub partition_row: VertexNum,
}

impl CodeCapacityPlanarCodeVerticalPartitionHalf {
    pub fn new(d: VertexNum, partition_row: VertexNum) -> (r: Self)
        ensures
            r.d == d,
            r.partition_row == partition_row,
    {
        Self { d, partition_row }
    }

    /// the rows above `partition_row` form the first unit, the rows below it the second
    pub fn build_partition(&self, vertex_num: VertexNum) -> (r: PartitionConfig)
        requires
            vertex_num == self.d * (self.d + 1),
            1 < self.partition_row < self.d,
        ensures
            r.vertex_num == vertex_num,
            ({
                let top_end = (self.partition_row - 1) * (self.d + 1);
                r.partitions@ == seq![
                    range_of(0, top_end),
                    range_of(self.partition_row * (self.d + 1), self.d * (self.d + 1)),
                ]
            }),
            r.fusions@ == seq![(0usize, 1usize)],
    {
        let d = self.d;
        let partition_row = self.partition_row;
        proof {
            assert((partition_row - 1) * (d + 1) <= partition_row * (d + 1) <= d * (d + 1)
                && d + 1 <= d * (d + 1)) by (nonlinear_arith)
                requires
                    1 < partition_row < d,
            ;
        }
        let mut config = PartitionConfig::new(vertex_num);
        let p0 = IndexRange::new(0, (partition_row - 1) * (d + 1));
        let p1 = IndexRange::new(partition_row * (d + 1), d * (d + 1));
        config.partitions = vec![p0, p1];
        config.fusions = vec![(0, 1)];
        config
    }
}

/// partition into top half and bottom half
pub struct CodeCapacityRotatedCodeVerticalPartitionHalf {
    pub d: VertexNum,
    /// the row of splitting: in the visualization tool, the top row is the 1st row, the bottom row is the d-th row
    pub partition_row: VertexNum,
}

impl CodeCapacityRotatedCodeVerticalPartitionHalf {
    pub fn new(d: VertexNum, partition_row: VertexNum) -> (r: Self)
        ensures
            r.d == d,
            r.partition_row == partition_row,
    {
        Self { d, partition_row }
    }

    /// each row of the rotated code holds `(d - 1) / 2 + 1` vertices
    pub fn build_partition(&self, vertex_num: VertexNum) -> (r: PartitionConfig)
        requires
            self.d >= 1,
            vertex_num == ((self.d - 1) / 2 + 1) * (self.d + 1),
            1 <= self.partition_row < self.d,
        ensures
            r.vertex_num == vertex_num,
            ({
                let row_vertex_num = (self.d - 1) / 2 + 1;
                r.partitions@ == seq![
                    range_of(0, self.partition_row * row_vertex_num),
                    range_of(
                        (self.partition_row + 1) * row_vertex_num,
                        row_vertex_num * (self.d + 1),
                    ),
                ]
            }),
            r.fusions@ == seq![(0usize, 1usize)],
    {
        let d = self.d;
        let partition_row = self.partition_row;
        let row_vertex_num = (d - 1) / 2 + 1;
        proof {
            assert(partition_row * row_vertex_num <= (partition_row + 1) * row_vertex_num
                <= row_vertex_num * (d + 1) && d + 1 <= row_vertex_num * (d + 1)) by (nonlinear_arith)
                requires
                    1 <= partition_row < d,
                    row_vertex_num >= 1,
            ;
        }
        let mut config = PartitionConfig::new(vertex_num);
        let p0 = IndexRange::new(0, partition_row * row_vertex_num);
        let p1 = IndexRange::new((partition_row + 1) * row_vertex_num, row_vertex_num * (d + 1));
        config.partitions = vec![p0, p1];
        config.fusions = vec![(0, 1)];
        config
    }
}

/// the concatenation of `row(i)` over the rows `lo <= i < hi`
pub open spec fn rows_concat(lo: int, hi: int, row: spec_fn(int) -> Seq<usize>) -> Seq<usize>
    decreases hi - lo,
{
    if hi <= lo {
        Seq::empty()
    } else {
        rows_concat(lo, hi - 1, row) + row(hi - 1)
    }
}

/// the vertices `i * (d + 1) + j` for `lo <= j < hi`
pub open spec fn row_span(d: int, i: int, lo: int, hi: int) -> Seq<usize> {
    Seq::new((hi - lo) as nat, |j: int| (i * (d + 1) + lo + j) as usize)
}

/// the vertices of the planar code in the order that groups the four blocks and their interfaces:
/// in the top rows the left block with the right virtual vertex of each row, the vertical
/// interface and the right block, then the whole horizontal interface row, then the same for the
/// bottom rows
pub open spec fn planar_four_order(d: int, split_h: int, split_v: int) -> Seq<usize> {
    let left = |i: int| row_span(d, i, 0, split_v).push((i * (d + 1) + d) as usize);
    let middle = |i: int| seq![(i * (d + 1) + split_v) as usize];
    let right = |i: int| row_span(d, i, split_v + 1, d);
    rows_concat(0, split_h, left) + rows_concat(0, split_h, middle) + rows_concat(0, split_h, right)
        + row_span(d, split_h, 0, d + 1) + rows_concat(split_h + 1, d, left) + rows_concat(
        split_h + 1,
        d,
        middle,
    ) + rows_concat(split_h + 1, d, right)
}

/// append the vertices `i * (d + 1) + j` for `lo <= j < hi`
fn push_span(v: &mut Vec<VertexIndex>, d: usize, i: usize, lo: usize, hi: usize)
    requires
        i < d,
        lo <= hi <= d + 1,
        (d + 1) * (d + 1) <= usize::MAX,
    ensures
        final(v)@ == old(v)@ + row_span(d as int, i as int, lo as int, hi as int),
{
    proof {
        assert(i * (d + 1) + d + 1 <= (d + 1) * (d + 1)) by (nonlinear_arith)
            requires
                i < d,
        ;
    }
    let ghost start = v@;
    let mut j: usize = lo;
    while j < hi
        invariant
            lo <= j <= hi <= d + 1,
            i < d,
            i * (d + 1) + d + 1 <= usize::MAX,
            v@ == start + row_span(d as int, i as int, lo as int, j as int),
        decreases hi - j,
    {
        proof {
            assert(i * (d + 1) + j <= i * (d + 1) + d);
        }
        v.push(i * (d + 1) + j);
        j = j + 1;
        proof {
            assert(v@ =~= start + row_span(d as int, i as int, lo as int, j as int));
        }
    }
}

/// partition into 4 pieces: top left and right, bottom left and right
pub struct CodeCapacityPlanarCodeVerticalPartitionFour {
    pub d: VertexNum,
    /// the row of splitting: in the visualization tool, the top row is the 1st row, the bottom row is the d-th row
    pub partition_row: VertexNum,
    /// the row of splitting: in the visualization tool, the left (non-virtual) column is the 1st column, the right (non-virtual) column is the (d-1)-th column
    pub partition_column: VertexNum,
}

impl CodeCapacityPlanarCodeVerticalPartitionFour {
    pub fn new(d: VertexNum, partition_row: VertexNum, partition_column: VertexNum) -> (r: Self)
        ensures
            r.d == d,
            r.partition_row == partition_row,
            r.partition_column == partition_column,
    {
        Self { d, partition_row, partition_column }
    }

    /// list the vertices block by block: the top left block, the top vertical interface, the top
    /// right block, the horizontal interface row, and the same for the bottom
    pub fn build_reordered_vertices(&self, vertex_num: VertexNum) -> (r: Option<Vec<VertexIndex>>)
        requires
            vertex_num == self.d * (self.d + 1),
            1 < self.partition_row < self.d,
            1 <= self.partition_column <= self.d,
            (self.d + 1) * (self.d + 1) <= usize::MAX,
        ensures
            r matches Some(v) && v@ == planar_four_order(
                self.d as int,
                self.partition_row - 1,
                self.partition_column - 1,
            ),
    {
        let d = self.d;
        let split_horizontal = self.partition_row - 1;
        let split_vertical = self.partition_column - 1;
        let ghost left = |i: int| row_span(d as int, i, 0, split_vertical as int).push(
            (i * (d + 1) + d) as usize,
        );
        let ghost middle = |i: int| seq![(i * (d + 1) + split_vertical) as usize];
        let ghost right = |i: int| row_span(d as int, i, split_vertical + 1, d as int);
        let mut reordered_vertices: Vec<VertexIndex> = Vec::new();
        proof {
            assert(d + 1 <= (d + 1) * (d + 1)) by (nonlinear_arith);
        }
        let mut part: usize = 0;
        while part < 2
            invariant
                d + 1 <= usize::MAX,
                d == self.d,
                1 < self.partition_row < d,
                split_horizontal == self.partition_row - 1,
                split_vertical == self.partition_column - 1 < d,
                (d + 1) * (d + 1) <= usize::MAX,
                left == (|i: int| row_span(d as int, i, 0, split_vertical as int).push(
                    (i * (d + 1) + d) as usize,
                )),
                middle == (|i: int| seq![(i * (d + 1) + split_vertical) as usize]),
                right == (|i: int| row_span(d as int, i, split_vertical + 1, d as int)),
                part <= 2,
                part == 0 ==> reordered_vertices@ == Seq::<usize>::empty(),
                part == 1 ==> reordered_vertices@ == rows_concat(0, split_horizontal as int, left)
                    + rows_concat(0, split_horizontal as int, middle) + rows_concat(
                    0,
                    split_horizontal as int,
                    right,
                ) + row_span(d as int, split_horizontal as int, 0, d + 1),
                part == 2 ==> reordered_vertices@ == planar_four_order(
                    d as int,
                    split_horizontal as int,
                    split_vertical as int,
                ),
            decreases 2 - part,
        {
            let (lo, hi) = if part == 0 {
                (0, split_horizontal)
            } else {
                (split_horizontal + 1, d)
            };
            let ghost base = reordered_vertices@;
            // the left block, each row with its right virtual vertex
            let mut i: usize = lo;
            while i < hi
                invariant
                    lo <= i <= hi <= d,
                    split_vertical < d,
                    d + 1 <= usize::MAX,
                    (d + 1) * (d + 1) <= usize::MAX,
                    left == (|i: int| row_span(d as int, i, 0, split_vertical as int).push(
                        (i * (d + 1) + d) as usize,
                    )),
                    reordered_vertices@ == base + rows_concat(lo as int, i as int, left),
                decreases hi - i,
            {
                push_span(&mut reordered_vertices, d, i, 0, split_vertical);
                proof {
                    assert(i * (d + 1) + d <= (d + 1) * (d + 1)) by (nonlinear_arith)
                        requires
                            i < d,
                    ;
                    assert(i * (d + 1) <= (d + 1) * (d + 1)) by (nonlinear_arith)
                        requires
                            i < d,
                    ;
                }
                reordered_vertices.push(i * (d + 1) + d);
                i = i + 1;
                proof {
                    assert(reordered_vertices@ =~= base + rows_concat(lo as int, i as int, left));
                }
            }
            let ghost base1 = reordered_vertices@;
            // the interface between the left block and the right block
            let mut i: usize = lo;
            while i < hi
                invariant
                    lo <= i <= hi <= d,
                    split_vertical < d,
                    d + 1 <= usize::MAX,
                    (d + 1) * (d + 1) <= usize::MAX,
                    middle == (|i: int| seq![(i * (d + 1) + split_vertical) as usize]),
                    reordered_vertices@ == base1 + rows_concat(lo as int, i as int, middle),
                decreases hi - i,
            {
                proof {
                    assert(i * (d + 1) + split_vertical <= (d + 1) * (d + 1)) by (nonlinear_arith)
                        requires
                            i < d,
                            split_vertical < d,
                    ;
                    assert(i * (d + 1) <= (d + 1) * (d + 1)) by (nonlinear_arith)
                        requires
                            i < d,
                    ;
                }
                reordered_vertices.push(i * (d + 1) + split_vertical);
                i = i + 1;
                proof {
                    assert(reordered_vertices@ =~= base1 + rows_concat(lo as int, i as int, middle));
                }
            }
            let ghost base2 = reordered_vertices@;
            // the right block
            let mut i: usize = lo;
            while i < hi
                invariant
                    lo <= i <= hi <= d,
                    split_vertical < d,
                    d + 1 <= usize::MAX,
                    (d + 1) * (d + 1) <= usize::MAX,
                    right == (|i: int| row_span(d as int, i, split_vertical + 1, d as int)),
                    reordered_vertices@ == base2 + rows_concat(lo as int, i as int, right),
                decreases hi - i,
            {
                push_span(&mut reordered_vertices, d, i, split_vertical + 1, d);
                i = i + 1;
                proof {
                    assert(reordered_vertices@ =~= base2 + rows_concat(lo as int, i as int, right));
                }
            }
            if part == 0 {
                // the big interface between top and bottom
                push_span(&mut reordered_vertices, d, split_horizontal, 0, d + 1);
            }
            proof {
                if part == 0 {
                    assert(reordered_vertices@ =~= rows_concat(0, split_horizontal as int, left)
                        + rows_concat(0, split_horizontal as int, middle) + rows_concat(
                        0,
                        split_horizontal as int,
                        right,
                    ) + row_span(d as int, split_horizontal as int, 0, d + 1));
                } else {
                    assert(reordered_vertices@ =~= planar_four_order(
                        d as int,
                        split_horizontal as int,
                        split_vertical as int,
                    ));
                }
            }
            part = part + 1;
        }
        Some(reordered_vertices)
    }

    /// the four leaf units hold `(row - 1) * column`, `(row - 1) * (d - column)`,
    /// `(d - row) * column` and `(d - row) * (d - column)` vertices; units 0 and 1
    /// fuse into 4, units 2 and 3 into 5, and 4 and 5 into the whole
    pub fn build_partition(&self, vertex_num: VertexNum) -> (r: PartitionConfig)
        requires
            1 <= self.partition_row <= self.d,
            self.partition_column <= self.d,
            self.d * (self.d + 1) <= usize::MAX,
        ensures
            r.vertex_num == self.d * (self.d + 1),
            ({
                let (d, pr, pc) = (
                    self.d as int,
                    self.partition_row as int,
                    self.partition_column as int,
                );
                let b0 = (pr - 1) * pc;
                let b1 = (pr - 1) * (d - pc);
                let b2 = (d - pr) * pc;
                let b3 = (d - pr) * (d - pc);
                let s1 = b0 + (pr - 1);
                let s2 = pr * (d + 1);
                let s3 = pr * (d + 1) + b2 + (d - pr);
                r.partitions@ == seq![
                    range_of(0, b0),
                    range_of(s1, s1 + b1),
                    range_of(s2, s2 + b2),
                    range_of(s3, s3 + b3),
                ]
            }),
            r.fusions@ == seq![(0usize, 1usize), (2usize, 3usize), (4usize, 5usize)],
    {
        let d = self.d;
        let partition_row = self.partition_row;
        let partition_column = self.partition_column;
        proof {
            assert(d * (d + 1) == (partition_row - 1) * partition_column + (partition_row - 1) * (
            d - partition_column) + (partition_row - 1) + (d + 1) + (d - partition_row)
                * partition_column + (d - partition_row) + (d - partition_row) * (d
                - partition_column)) by (nonlinear_arith)
                requires
                    1 <= partition_row <= d,
                    partition_column <= d,
            ;
            assert(partition_row * (d + 1) == (partition_row - 1) * partition_column + (
            partition_row - 1) * (d - partition_column) + (partition_row - 1) + (d + 1))
                by (nonlinear_arith)
                requires
                    1 <= partition_row <= d,
                    partition_column <= d,
            ;
            assert(0 <= (partition_row - 1) * partition_column) by (nonlinear_arith)
                requires
                    1 <= partition_row,
            ;
            assert(0 <= (partition_row - 1) * (d - partition_column)) by (nonlinear_arith)
                requires
                    1 <= partition_row,
                    partition_column <= d,
            ;
            assert(0 <= (d - partition_row) * partition_column) by (nonlinear_arith)
                requires
                    partition_row <= d,
            ;
            assert(0 <= (d - partition_row) * (d - partition_column)) by (nonlinear_arith)
                requires
                    partition_row <= d,
                    partition_column <= d,
            ;
        }
        let mut config = PartitionConfig::new(d * (d + 1));
        let b0_count = (partition_row - 1) * partition_column;
        let b1_count = (partition_row - 1) * (d - partition_column);
        let b2_count = (d - partition_row) * partition_column;
        let b3_count = (d - partition_row) * (d - partition_column);
        let p0 = IndexRange::new_length(0, b0_count);
        let p1 = IndexRange::new_length(b0_count + (partition_row - 1), b1_count);
        let p2 = IndexRange::new_length(partition_row * (d + 1), b2_count);
        let p3 = IndexRange::new_length(
            partition_row * (d + 1) + b2_count + (d - partition_row),
            b3_count,
        );
        config.partitions = vec![p0, p1, p2, p3];
        config.fusions = vec![(0, 1), (2, 3), (4, 5)];
        config
    }
}

/// partition a repetition code into left half and right half
pub struct CodeCapacityRepetitionCodePartitionHalf {
    pub d: VertexNum,
    /// the position of splitting: in the visualization tool, the left (non-virtual) vertex is the 1st column, the right (non-virtual) vertex is the (d-1)-th column
    pub partition_index: VertexIndex,
}

impl CodeCapacityRepetitionCodePartitionHalf {
    pub fn new(d: VertexNum, partition_index: VertexIndex) -> (r: Self)
        ensures
            r.d == d,
            r.partition_index == partition_index,
    {
        Self { d, partition_index }
    }

    /// move the right virtual vertex `d` right after the first `partition_index - 1` vertices
    pub fn build_reordered_vertices(&self, vertex_num: VertexNum) -> (r: Option<Vec<VertexIndex>>)
        requires
            vertex_num == self.d + 1,
            1 < self.partition_index < self.d,
        ensures
            ({
                let split = (self.partition_index - 1) as nat;
                let rest = (self.d - split) as nat;
                r matches Some(v) && v@ == Seq::new(split, |j: int| j as usize) + seq![self.d]
                    + Seq::new(rest, |j: int| (split + j) as usize)
            }),
    {
        let d = self.d;
        let partition_index = self.partition_index;
        let mut reordered_vertices: Vec<VertexIndex> = Vec::new();
        let split_vertical = partition_index - 1;
        let mut j: usize = 0;
        while j < split_vertical
            invariant
                j <= split_vertical,
                reordered_vertices@ == Seq::new(j as nat, |k: int| k as usize),
            decreases split_vertical - j,
        {
            reordered_vertices.push(j);
            j = j + 1;
        }
        reordered_vertices.push(d);
        let ghost prefix = reordered_vertices@;
        let mut j: usize = split_vertical;
        while j < d
            invariant
                split_vertical <= j <= d,
                prefix.len() == split_vertical + 1,
                reordered_vertices@ == prefix + Seq::new(
                    (j - split_vertical) as nat,
                    |k: int| (split_vertical + k) as usize,
                ),
            decreases d - j,
        {
            reordered_vertices.push(j);
            j = j + 1;
            assert(reordered_vertices@ =~= prefix + Seq::new(
                (j - split_vertical) as nat,
                |k: int| (split_vertical + k) as usize,
            ));
        }
        Some(reordered_vertices)
    }

    /// units `[0, partition_index)` and `[partition_index + 1, d + 1)` of the reordered vertices
    pub fn build_partition(&self, vertex_num: VertexNum) -> (r: PartitionConfig)
        requires
            self.partition_index < self.d < usize::MAX,
        ensures
            r.vertex_num == self.d + 1,
            r.partitions@ == seq![
                range_of(0, self.partition_index as int),
                range_of(self.partition_index + 1, self.d + 1),
            ],
            r.fusions@ == seq![(0usize, 1usize)],
    {
        let d = self.d;
        let partition_index = self.partition_index;
        let mut config = PartitionConfig::new(d + 1);
        let p0 = IndexRange::new(0, partition_index);
        let p1 = IndexRange::new(partition_index + 1, d + 1);
        config.partitions = vec![p0, p1];
        config.fusions = vec![(0, 1)];
        config
    }
}


/// first round (inclusive) of the `i`-th of `p` time slices over `m` measurement rounds
pub open spec fn slice_start_round(i: int, m: int, p: int) -> int {
    i * m / p
}

/// the vertex range of the `i`-th time slice; every slice except the first leaves
/// out its first round, which is the interface to the previous slice
pub open spec fn time_partition_range(i: int, m: int, p: int, round_vertex_num: int) -> IndexRange {
    let start_round = slice_start_round(i, m, p);
    let end_round = slice_start_round(i + 1, m, p);
    if i == 0 {
        range_of(start_round * round_vertex_num, end_round * round_vertex_num)
    } else {
        range_of((start_round + 1) * round_vertex_num, end_round * round_vertex_num)
    }
}

/// fusing sequentially: unit `p` fuses units 0 and 1, and unit `p + k` fuses unit `p + k - 1`
/// with leaf `k + 1`
pub open spec fn sequential_fusion(k: int, p: int) -> (usize, usize) {
    if k == 0 {
        (0usize, 1usize)
    } else {
        ((p + k - 1) as usize, (k + 1) as usize)
    }
}

proof fn lemma_slices_nonempty(i: int, m: int, p: int)
    requires
        0 <= i,
        i + 1 <= p <= m,
    ensures
        slice_start_round(i, m, p) + 1 <= slice_start_round(i + 1, m, p),
        0 <= slice_start_round(i, m, p),
        slice_start_round(i + 1, m, p) <= m,
{
    let a = i * m;
    assert((i + 1) * m == i * m + m) by (nonlinear_arith);
    assert(i * m >= 0) by (nonlinear_arith)
        requires
            0 <= i,
            p <= m,
            1 <= p,
    ;
    vstd::arithmetic::div_mod::lemma_div_plus_one(a, p);
    vstd::arithmetic::div_mod::lemma_div_is_ordered(a + p, a + m, p);
    vstd::arithmetic::div_mod::lemma_div_pos_is_pos(a, p);
    assert((i + 1) * m <= p * m) by (nonlinear_arith)
        requires
            i + 1 <= p,
            0 <= m,
    ;
    vstd::arithmetic::div_mod::lemma_div_is_ordered((i + 1) * m, p * m, p);
    vstd::arithmetic::div_mod::lemma_div_multiples_vanish(m, p);
    assert(p * m == m * p) by (nonlinear_arith);
}

/// the time slices start in increasing order
proof fn lemma_time_starts_increasing(partitions: Seq<VertexRange>, m: int, p: int, rv: int)
    requires
        1 <= p <= m,
        1 <= rv,
        rv * m <= usize::MAX,
        partitions.len() == p,
        forall|i: int| 0 <= i < p ==> #[trigger] partitions[i] == time_partition_range(i, m, p, rv),
    ensures
        starts_increasing(partitions),
{
    assert forall|i: int, j: int| 0 <= i < j < partitions.len() implies #[trigger] partitions[i].range_start
        < #[trigger] partitions[j].range_start by {
        lemma_slices_nonempty(i, m, p);
        lemma_slices_nonempty(j, m, p);
        assert((i + 1) * m <= j * m) by (nonlinear_arith)
            requires
                i + 1 <= j,
                0 <= m,
        ;
        vstd::arithmetic::div_mod::lemma_div_is_ordered((i + 1) * m, j * m, p);
        let si = slice_start_round(i, m, p);
        let sj = slice_start_round(j, m, p);
        assert(si + 1 <= sj);
        assert((sj + 1) * rv <= m * rv) by (nonlinear_arith)
            requires
                sj + 1 <= m,
                1 <= rv,
        ;
        assert(rv * m == m * rv) by (nonlinear_arith);
        assert(0 <= si * rv) by (nonlinear_arith)
            requires
                0 <= si,
                1 <= rv,
        ;
        assert((si + 1) * rv < (sj + 1) * rv) by (nonlinear_arith)
            requires
                si < sj,
                1 <= rv,
        ;
        assert(si * rv < (sj + 1) * rv) by (nonlinear_arith)
            requires
                si < sj + 1,
                1 <= rv,
        ;
    }
}

/// split the rounds evenly into `partition_num` slices; the leaf ranges of the time partition
fn build_time_partition_ranges(
    round_vertex_num: VertexNum,
    noisy_measurements: VertexNum,
    partition_num: usize,
) -> (r: Vec<VertexRange>)
    requires
        1 <= partition_num <= noisy_measurements + 1,
        partition_num * (noisy_measurements + 1) <= usize::MAX,
        round_vertex_num * (noisy_measurements + 1) <= usize::MAX,
    ensures
        r@.len() == partition_num,
        forall|i: int|
            0 <= i < partition_num ==> #[trigger] r@[i] == time_partition_range(
                i,
                noisy_measurements + 1,
                partition_num as int,
                round_vertex_num as int,
            ),
        forall|i: int| 0 <= i < partition_num ==> (#[trigger] r@[i]).wf(),
{
    proof {
        assert(noisy_measurements + 1 <= partition_num * (noisy_measurements + 1))
            by (nonlinear_arith)
            requires
                partition_num >= 1,
        ;
    }
    let m = noisy_measurements + 1;
    let mut partitions: Vec<VertexRange> = Vec::new();
    let mut partition_index: usize = 0;
    while partition_index < partition_num
        invariant
            0 <= partition_index <= partition_num,
            m == noisy_measurements + 1,
            1 <= partition_num <= m,
            partition_num * m <= usize::MAX,
            round_vertex_num * m <= usize::MAX,
            partitions@.len() == partition_index,
            forall|i: int|
                0 <= i < partition_index ==> #[trigger] partitions@[i] == time_partition_range(
                    i,
                    m as int,
                    partition_num as int,
                    round_vertex_num as int,
                ),
            forall|i: int| 0 <= i < partition_index ==> (#[trigger] partitions@[i]).wf(),
        decreases partition_num - partition_index,
    {
        proof {
            lemma_slices_nonempty(partition_index as int, m as int, partition_num as int);
            assert((partition_index + 1) * m <= partition_num * m) by (nonlinear_arith)
                requires
                    partition_index + 1 <= partition_num,
            ;
            assert(partition_index * m <= (partition_index + 1) * m) by (nonlinear_arith);
        }
        let start_round_index = partition_index * m / partition_num;
        let end_round_index = (partition_index + 1) * m / partition_num;
        proof {
            let sr = start_round_index as int;
            let er = end_round_index as int;
            let rv = round_vertex_num as int;
            assert(sr * rv <= (sr + 1) * rv <= er * rv <= rv * m) by (nonlinear_arith)
                requires
                    0 <= sr,
                    sr + 1 <= er <= m,
                    0 <= rv,
            ;
        }
        let range = if partition_index == 0 {
            IndexRange::new(start_round_index * round_vertex_num, end_round_index * round_vertex_num)
        } else {
            IndexRange::new(
                (start_round_index + 1) * round_vertex_num,
                end_round_index * round_vertex_num,
            )
        };
        partitions.push(range);
        partition_index = partition_index + 1;
    }
    partitions
}

/// fuse the leaf units one by one in order
fn build_sequential_fusions(partition_num: usize) -> (r: Vec<(usize, usize)>)
    requires
        1 <= partition_num,
        2 * partition_num <= usize::MAX,
    ensures
        r@.len() == partition_num - 1,
        forall|k: int|
            0 <= k < partition_num - 1 ==> #[trigger] r@[k] == sequential_fusion(
                k,
                partition_num as int,
            ),
{
    let mut fusions: Vec<(usize, usize)> = Vec::new();
    let mut unit_index: usize = partition_num;
    while unit_index < 2 * partition_num - 1
        invariant
            partition_num <= unit_index <= 2 * partition_num - 1,
            2 * partition_num <= usize::MAX,
            fusions@.len() == unit_index - partition_num,
            forall|k: int|
                0 <= k < unit_index - partition_num ==> #[trigger] fusions@[k]
                    == sequential_fusion(k, partition_num as int),
        decreases 2 * partition_num - 1 - unit_index,
    {
        if unit_index == partition_num {
            fusions.push((0, 1));
        } else {
            fusions.push((unit_index - 1, unit_index - partition_num + 1));
        }
        unit_index = unit_index + 1;
    }
    fusions
}

/// every fusion joins two units that exist before it: the `k`-th fusion creates unit
/// `leaf_num + k` out of two units of smaller index
pub open spec fn fusions_well_founded(fusions: Seq<(usize, usize)>, leaf_num: int) -> bool {
    forall|k: int|
        0 <= k < fusions.len() ==> (#[trigger] fusions[k]).0 < leaf_num + k && fusions[k].1 < leaf_num
            + k
}

/// the vertex ranges of the leaf units start in increasing order
pub open spec fn starts_increasing(partitions: Seq<VertexRange>) -> bool {
    forall|i: int, j: int|
        0 <= i < j < partitions.len() ==> #[trigger] partitions[i].range_start < #[trigger] partitions[j].range_start
}

/// the leaf intervals `leaves[u]` of the pending units are disjoint and cover the leaves `[a, b)`
pub open spec fn tiles(leaves: Seq<(usize, usize)>, pending: Seq<usize>, a: int, b: int) -> bool {
    &&& forall|x: int|
        0 <= x < pending.len() ==> {
            &&& #[trigger] pending[x] < leaves.len()
            &&& a <= leaves[pending[x] as int].0 <= leaves[pending[x] as int].1 < b
        }
    &&& forall|x: int, y: int|
        0 <= x < pending.len() && 0 <= y < pending.len() && x != y ==> leaves[#[trigger] pending[x] as int].1
            < leaves[#[trigger] pending[y] as int].0 || leaves[pending[y] as int].1 < leaves[pending[x] as int].0
    &&& forall|l: int| a <= l < b ==> #[trigger] covered_by(leaves, pending, l)
}

/// leaf `l` lies in the leaf interval of one of the pending units
pub open spec fn covered_by(leaves: Seq<(usize, usize)>, pending: Seq<usize>, l: int) -> bool {
    exists|x: int| 0 <= x < pending.len() && leaves[#[trigger] pending[x] as int].0 <= l <= leaves[pending[x] as int].1
}

/// the leaf intervals `u` and `w` border on each other
pub open spec fn bordering(u: (usize, usize), w: (usize, usize)) -> bool {
    u.0 == w.1 + 1 || w.0 == u.1 + 1
}

/// among at least two pending units that tile a range, the first borders on another one
proof fn lemma_first_has_neighbor(leaves: Seq<(usize, usize)>, pending: Seq<usize>, a: int, b: int)
    requires
        tiles(leaves, pending, a, b),
        pending.len() >= 2,
    ensures
        exists|x: int|
            1 <= x < pending.len() && bordering(leaves[pending[0] as int], leaves[#[trigger] pending[x] as int]),
{
    let u = leaves[pending[0] as int];
    assert(pending[0] < leaves.len());
    assert(pending[1] < leaves.len());
    if u.1 + 1 < b {
        let l = u.1 + 1;
        assert(covered_by(leaves, pending, l));
        let x = choose|x: int| 0 <= x < pending.len() && leaves[#[trigger] pending[x] as int].0 <= l <= leaves[pending[x] as int].1;
        assert(x != 0);
        assert(pending[x] < leaves.len());
        let w = leaves[pending[x] as int];
        assert(w.1 < u.0 || u.1 < w.0);
        assert(bordering(u, w));
    } else {
        // the first unit reaches the end, so the second one lies before it
        let w1 = leaves[pending[1] as int];
        assert(w1.1 < u.0 || u.1 < w1.0);
        assert(a < u.0);
        let l = u.0 - 1;
        assert(covered_by(leaves, pending, l));
        let x = choose|x: int| 0 <= x < pending.len() && leaves[#[trigger] pending[x] as int].0 <= l <= leaves[pending[x] as int].1;
        assert(x != 0);
        assert(pending[x] < leaves.len());
        let w = leaves[pending[x] as int];
        assert(w.1 < u.0 || u.1 < w.0);
        assert(bordering(u, w));
    }
}

/// joining the first pending unit with the bordering `i`-th of the others into a new unit whose
/// leaves are the union keeps the pending units tiling the range
proof fn lemma_merge_tiles(leaves: Seq<(usize, usize)>, pending: Seq<usize>, a: int, b: int, i: int, joined: (usize, usize))
    requires
        tiles(leaves, pending, a, b),
        pending.len() >= 2,
        0 <= i < pending.len() - 1,
        bordering(leaves[pending[0] as int], leaves[pending[i + 1] as int]),
        joined.0 == if leaves[pending[0] as int].0 < leaves[pending[i + 1] as int].0 { leaves[pending[0] as int].0 } else { leaves[pending[i + 1] as int].0 },
        joined.1 == if leaves[pending[0] as int].0 < leaves[pending[i + 1] as int].0 { leaves[pending[i + 1] as int].1 } else { leaves[pending[0] as int].1 },
        leaves.len() < usize::MAX,
    ensures
        tiles(
            leaves.push(joined),
            pending.subrange(1, pending.len() as int).remove(i).push(leaves.len() as usize),
            a,
            b,
        ),
{
    let nl = leaves.push(joined);
    let rest = pending.subrange(1, pending.len() as int);
    let np = rest.remove(i).push(leaves.len() as usize);
    let u = leaves[pending[0] as int];
    let w = leaves[pending[i + 1] as int];
    assert(pending[0] < leaves.len());
    assert(pending[i + 1] < leaves.len());
    assert(u.1 < w.0 || w.1 < u.0);
    // the elements of the new list: the old ones but the two joined, then the new unit
    assert forall|x: int| 0 <= x < np.len() - 1 implies #[trigger] np[x] == pending[if x < i { x + 1 } else { x + 2 }] by {}
    assert(np[np.len() - 1] == leaves.len());
    assert forall|x: int| 0 <= x < np.len() implies {
        &&& #[trigger] np[x] < nl.len()
        &&& a <= nl[np[x] as int].0 <= nl[np[x] as int].1 < b
    } by {
        if x < np.len() - 1 {
            let y = if x < i { x + 1 } else { x + 2 };
            assert(pending[y] < leaves.len());
            assert(nl[np[x] as int] == leaves[pending[y] as int]);
        }
    }
    assert forall|x: int, y: int|
        0 <= x < np.len() && 0 <= y < np.len() && x != y implies nl[#[trigger] np[x] as int].1
            < nl[#[trigger] np[y] as int].0 || nl[np[y] as int].1 < nl[np[x] as int].0 by {
        let last = np.len() - 1;
        if x < last && y < last {
            let x0 = if x < i { x + 1 } else { x + 2 };
            let y0 = if y < i { y + 1 } else { y + 2 };
            assert(pending[x0] < leaves.len() && pending[y0] < leaves.len());
            assert(nl[np[x] as int] == leaves[pending[x0] as int]);
            assert(nl[np[y] as int] == leaves[pending[y0] as int]);
        } else if x < last {
            let x0 = if x < i { x + 1 } else { x + 2 };
            assert(pending[x0] < leaves.len());
            assert(nl[np[x] as int] == leaves[pending[x0] as int]);
            assert(nl[np[y] as int] == joined);
            let z = leaves[pending[x0] as int];
            assert(z.1 < u.0 || u.1 < z.0);
            assert(z.1 < w.0 || w.1 < z.0);
        } else {
            let y0 = if y < i { y + 1 } else { y + 2 };
            assert(pending[y0] < leaves.len());
            assert(nl[np[y] as int] == leaves[pending[y0] as int]);
            assert(nl[np[x] as int] == joined);
            let z = leaves[pending[y0] as int];
            assert(z.1 < u.0 || u.1 < z.0);
            assert(z.1 < w.0 || w.1 < z.0);
        }
    }
    assert forall|l: int| a <= l < b implies #[trigger] covered_by(nl, np, l) by {
        assert(covered_by(leaves, pending, l));
        let x = choose|x: int| 0 <= x < pending.len() && leaves[#[trigger] pending[x] as int].0 <= l <= leaves[pending[x] as int].1;
        if x == 0 || x == i + 1 {
            let last = np.len() - 1;
            assert(nl[np[last] as int] == joined);
            assert(nl[#[trigger] np[last] as int].0 <= l <= nl[np[last] as int].1);
        } else {
            let x1 = if x <= i { x - 1 } else { x - 2 };
            assert(np[x1] == pending[x]);
            assert(pending[x] < leaves.len());
            assert(nl[np[x1] as int] == leaves[pending[x] as int]);
            assert(nl[#[trigger] np[x1] as int].0 <= l <= nl[np[x1] as int].1);
        }
    }
}

/// the regions of `maximum_tree_leaf_size` leaves: region `r` starts before it ends, and the last
/// one ends with the last leaf
proof fn lemma_region_bounds(p: int, l: int, rc: int, r: int)
    requires
        l >= 1,
        p >= 1,
        rc == (if p <= l { 1 } else { (p + l - 1) / l }),
        0 <= r < rc,
    ensures
        ({
            let start = if r <= p / l { r * l } else { p };
            let end = if r + 1 <= p / l { (r + 1) * l } else { p };
            &&& start < end <= p
            &&& r + 1 == rc ==> end == p
        }),
{
    let q = p / l;
    let m = p % l;
    vstd::arithmetic::div_mod::lemma_fundamental_div_mod(p, l);
    assert(p == l * q + m);
    assert(0 <= m < l);
    assert(q >= 0) by {
        vstd::arithmetic::div_mod::lemma_div_pos_is_pos(p, l);
    }
    assert(l * q == q * l) by (nonlinear_arith);
    if p > l {
        if m == 0 {
            assert(p + l - 1 == q * l + (l - 1)) by (nonlinear_arith)
                requires
                    p == q * l + m,
                    m == 0,
            ;
            vstd::arithmetic::div_mod::lemma_fundamental_div_mod_converse(p + l - 1, l, q, l - 1);
        } else {
            assert(p + l - 1 == (q + 1) * l + (m - 1)) by (nonlinear_arith)
                requires
                    p == q * l + m,
            ;
            vstd::arithmetic::div_mod::lemma_fundamental_div_mod_converse(p + l - 1, l, q + 1, m - 1);
        }
    } else {
        if p == l {
            assert(q == 1) by {
                assert(p == 1 * l + 0) by (nonlinear_arith)
                    requires
                        p == l,
                ;
                vstd::arithmetic::div_mod::lemma_fundamental_div_mod_converse(p, l, 1, 0);
            }
        } else {
            assert(q == 0) by {
                assert(p == 0 * l + p) by (nonlinear_arith);
                vstd::arithmetic::div_mod::lemma_fundamental_div_mod_converse(p, l, 0, p);
            }
        }
    }
    assert(r <= q);
    assert(r * l <= q * l) by (nonlinear_arith)
        requires
            r <= q,
            l >= 1,
    ;
    assert((r + 1) * l == r * l + l) by (nonlinear_arith);
    if r + 1 <= q {
        assert((r + 1) * l <= q * l) by (nonlinear_arith)
            requires
                r + 1 <= q,
                l >= 1,
        ;
    }
}

/// the position, from `j` on, of the first pending unit whose leaves border on those of the
/// first pending unit (the length of `pending` if there is none)
pub open spec fn first_border(leaves: Seq<(usize, usize)>, pending: Seq<usize>, j: int) -> int
    decreases pending.len() - j,
{
    if j >= pending.len() {
        pending.len() as int
    } else if bordering(leaves[pending[0] as int], leaves[pending[j] as int]) {
        j
    } else {
        first_border(leaves, pending, j + 1)
    }
}

/// the fusions, the leaf intervals of the units and the pending units while a tree is built
pub type TreeState = (Seq<(usize, usize)>, Seq<(usize, usize)>, Seq<usize>);

/// one fusion of a tree: the first pending unit is fused with the first pending unit that borders
/// on it, the one with the lower leaves first; the new unit goes to the end of the pending units
pub open spec fn merge_once(state: TreeState) -> TreeState {
    let (fusions, leaves, pending) = state;
    let j = first_border(leaves, pending, 1);
    let a = pending[0];
    let b = pending[j];
    let (lo, hi) = if leaves[b as int].0 < leaves[a as int].0 {
        (b, a)
    } else {
        (a, b)
    };
    (
        fusions.push((lo, hi)),
        leaves.push((leaves[lo as int].0, leaves[hi as int].1)),
        pending.subrange(1, pending.len() as int).remove(j - 1).push(leaves.len() as usize),
    )
}

/// `steps` fusions of a tree
pub open spec fn tree_merges(state: TreeState, steps: nat) -> TreeState
    decreases steps,
{
    if steps == 0 {
        state
    } else {
        merge_once(tree_merges(state, (steps - 1) as nat))
    }
}

/// the number of regions of at most `l` leaves among `p` leaves
pub open spec fn region_count(p: int, l: int) -> int {
    if p <= l {
        1
    } else {
        (p + l - 1) / l
    }
}

/// the leaf after the last one of region `r`
pub open spec fn region_end(p: int, l: int, r: int) -> int {
    if r + 1 <= p / l {
        (r + 1) * l
    } else {
        p
    }
}

/// the first leaf of region `r`
pub open spec fn region_start(p: int, l: int, r: int) -> int {
    let start = if r <= p / l {
        r * l
    } else {
        p
    };
    if start <= region_end(p, l, r) {
        start
    } else {
        region_end(p, l, r)
    }
}

/// the fusions, the leaf intervals and the last unit of the sequential chain after the trees of
/// the first `r` regions of `p` leaves, `l` leaves to a region, were built and chained
pub open spec fn regions_fold(p: int, l: int, r: nat) -> (Seq<(usize, usize)>, Seq<(usize, usize)>, Option<usize>)
    decreases r,
{
    if r == 0 {
        (Seq::empty(), Seq::new(p as nat, |x: int| (x as usize, x as usize)), None)
    } else {
        let prev = regions_fold(p, l, (r - 1) as nat);
        let start = region_start(p, l, r - 1);
        let end = region_end(p, l, r - 1);
        let leaves = Seq::new((end - start) as nat, |x: int| (start + x) as usize);
        let tree = tree_merges((prev.0, prev.1, leaves), (end - start - 1) as nat);
        let root = tree.2[0];
        match prev.2 {
            Some(last) => (
                tree.0.push((last, root)),
                tree.1.push((tree.1[last as int].0, tree.1[root as int].1)),
                Some((root + 1) as usize),
            ),
            None => (tree.0, tree.1, Some(root)),
        }
    }
}

/// the fusions of `p` leaf units built as trees of at most `l` leaves each, the trees chained in
/// order
pub open spec fn tree_fusions(p: int, l: int) -> Seq<(usize, usize)> {
    regions_fold(p, l, region_count(p, l) as nat).0
}

/// the first bordering unit found by a search from `j` is the first one after `j` that borders
proof fn lemma_first_border(leaves: Seq<(usize, usize)>, pending: Seq<usize>, j: int, k: int)
    requires
        j <= k < pending.len(),
        bordering(leaves[pending[0] as int], leaves[pending[k] as int]),
        forall|x: int| j <= x < k ==> !bordering(leaves[pending[0] as int], leaves[#[trigger] pending[x] as int]),
    ensures
        first_border(leaves, pending, j) == k,
    decreases k - j,
{
    if j < k {
        assert(!bordering(leaves[pending[0] as int], leaves[pending[j] as int]));
        lemma_first_border(leaves, pending, j + 1, k);
    }
}

/// fuse the leaf units as trees of at most `maximum_tree_leaf_size` leaves each, always joining
/// the first pending unit with the first pending unit whose leaves border on its own, and chain
/// the trees of consecutive regions sequentially
fn build_tree_fusions(partitions: &Vec<VertexRange>, maximum_tree_leaf_size: usize) -> (r: Vec<(usize, usize)>)
    requires
        maximum_tree_leaf_size >= 1,
        partitions@.len() >= 1,
        4 * partitions@.len() <= usize::MAX,
    ensures
        fusions_well_founded(r@, partitions@.len() as int),
        starts_increasing(partitions@) ==> r@.len() == partitions@.len() - 1,
        starts_increasing(partitions@) ==> r@ == tree_fusions(
            partitions@.len() as int,
            maximum_tree_leaf_size as int,
        ),
{
    let ghost inc = starts_increasing(partitions@);
    let p = partitions.len();
    let mut whole_ranges: Vec<VertexRange> = Vec::new();
    let mut left_right_leaf: Vec<(usize, usize)> = Vec::new();
    let mut u: usize = 0;
    while u < p
        invariant
            u <= p == partitions@.len(),
            whole_ranges@.len() == u,
            left_right_leaf@.len() == u,
            forall|x: int| 0 <= x < u ==> (#[trigger] left_right_leaf@[x]).0 < p && left_right_leaf@[x].1 < p,
            forall|x: int| 0 <= x < u ==> #[trigger] left_right_leaf@[x] == (x as usize, x as usize),
            forall|x: int| 0 <= x < u ==> #[trigger] whole_ranges@[x] == partitions@[x],
        decreases p - u,
    {
        whole_ranges.push(partitions[u]);
        left_right_leaf.push((u, u));
        u = u + 1;
    }
    let mut fusions: Vec<(usize, usize)> = Vec::new();
    // first cut into multiple regions
    let region_count = if p <= maximum_tree_leaf_size {
        1
    } else {
        (p + maximum_tree_leaf_size - 1) / maximum_tree_leaf_size
    };
    proof {
        if p > maximum_tree_leaf_size {
            let a = (p + maximum_tree_leaf_size - 1) as int;
            let l = maximum_tree_leaf_size as int;
            assert(a / l <= a) by (nonlinear_arith)
                requires
                    l >= 1,
                    a >= 0,
            ;
            assert(a / l <= p) by (nonlinear_arith)
                requires
                    l >= 1,
                    a == p + l - 1,
                    p >= 1,
            ;
        }
    }
    proof {
        if p > maximum_tree_leaf_size {
            let l = maximum_tree_leaf_size as int;
            vstd::arithmetic::div_mod::lemma_div_is_ordered(l, p + l - 1, l);
            vstd::arithmetic::div_mod::lemma_div_by_self(l);
        }
    }
    let mut last_sequential_unit: Option<usize> = None;
    let mut region_index: usize = 0;
    let ghost mut covered: int = 0;
    assert(left_right_leaf@ =~= regions_fold(p as int, maximum_tree_leaf_size as int, 0).1);
    assert(fusions@ =~= regions_fold(p as int, maximum_tree_leaf_size as int, 0).0);
    while region_index < region_count
        invariant
            p == partitions@.len(),
            4 * p <= usize::MAX,
            region_count <= p,
            maximum_tree_leaf_size >= 1,
            whole_ranges@.len() == p + fusions@.len(),
            left_right_leaf@.len() == whole_ranges@.len(),
            region_count == (if p <= maximum_tree_leaf_size {
                1
            } else {
                (p + maximum_tree_leaf_size - 1) as int / maximum_tree_leaf_size as int
            }),
            fusions@.len() == (if region_index == 0 {
                0
            } else {
                covered - 1
            }),
            region_index == region_count ==> covered == p,
            inc == starts_increasing(partitions@),
            last_sequential_unit is Some <==> region_index > 0,
            forall|x: int| 0 <= x < p ==> #[trigger] left_right_leaf@[x] == (x as usize, x as usize),
            forall|x: int|
                0 <= x < whole_ranges@.len() ==> #[trigger] whole_ranges@[x].range_start
                    == partitions@[left_right_leaf@[x].0 as int].range_start,
            covered == (if region_index <= p / maximum_tree_leaf_size {
                region_index * maximum_tree_leaf_size
            } else {
                p as int
            }),
            0 <= covered <= p,
            fusions@.len() <= covered + region_index,
            region_index <= region_count,
            forall|x: int|
                0 <= x < left_right_leaf@.len() ==> (#[trigger] left_right_leaf@[x]).0 < p
                    && left_right_leaf@[x].1 < p,
            fusions_well_founded(fusions@, p as int),
            last_sequential_unit matches Some(l) ==> l < whole_ranges@.len(),
            inc ==> fusions@ == regions_fold(p as int, maximum_tree_leaf_size as int, region_index as nat).0,
            inc ==> left_right_leaf@ == regions_fold(p as int, maximum_tree_leaf_size as int, region_index as nat).1,
            inc ==> last_sequential_unit == regions_fold(p as int, maximum_tree_leaf_size as int, region_index as nat).2,
        decreases region_count - region_index,
    {
        proof {
            lemma_region_bounds(p as int, maximum_tree_leaf_size as int, region_count as int, region_index as int);
            assert(region_index * maximum_tree_leaf_size <= (region_index + 1) * maximum_tree_leaf_size)
                by (nonlinear_arith)
                requires
                    maximum_tree_leaf_size >= 1,
            ;
            if region_index + 1 <= p / maximum_tree_leaf_size {
                assert((region_index + 1) * maximum_tree_leaf_size <= p) by (nonlinear_arith)
                    requires
                        region_index + 1 <= p / maximum_tree_leaf_size,
                        maximum_tree_leaf_size >= 1,
                ;
            }
            if region_index <= p / maximum_tree_leaf_size {
                assert(region_index * maximum_tree_leaf_size <= p) by (nonlinear_arith)
                    requires
                        region_index <= p / maximum_tree_leaf_size,
                        maximum_tree_leaf_size >= 1,
                ;
            }
        }
        let region_start = if region_index <= p / maximum_tree_leaf_size {
            region_index * maximum_tree_leaf_size
        } else {
            p
        };
        let region_end = if region_index + 1 <= p / maximum_tree_leaf_size {
            (region_index + 1) * maximum_tree_leaf_size
        } else {
            p
        };
        let region_start = if region_start <= region_end {
            region_start
        } else {
            region_end
        };
        assert(region_start == covered);
        // build the local tree
        let mut pending_fusion: Vec<usize> = Vec::new();
        let mut unit_index: usize = region_start;
        while unit_index < region_end
            invariant
                region_start <= unit_index <= region_end <= p,
                pending_fusion@.len() == unit_index - region_start,
                forall|x: int| 0 <= x < pending_fusion@.len() ==> #[trigger] pending_fusion@[x] < p,
                forall|x: int| 0 <= x < pending_fusion@.len() ==> #[trigger] pending_fusion@[x] == region_start + x,
            decreases region_end - unit_index,
        {
            pending_fusion.push(unit_index);
            unit_index = unit_index + 1;
        }
        let ghost fusions_base = fusions@.len();
        let ghost f0 = fusions@;
        let ghost lv0 = left_right_leaf@;
        let ghost init0 = pending_fusion@;
        assert(init0 =~= Seq::new((region_end - region_start) as nat, |x: int| (region_start + x) as usize));
        proof {
            assert(region_start < region_end);
            // the leaves of the region tile it
            assert forall|l: int| region_start <= l < region_end implies #[trigger] covered_by(
                left_right_leaf@,
                pending_fusion@,
                l,
            ) by {
                let x = l - region_start;
                assert(pending_fusion@[x] == l);
                assert(left_right_leaf@[pending_fusion@[x] as int] == (l as usize, l as usize));
            }
            assert forall|x: int, y: int|
                0 <= x < pending_fusion@.len() && 0 <= y < pending_fusion@.len() && x != y implies left_right_leaf@[#[trigger] pending_fusion@[x] as int].1
                    < left_right_leaf@[#[trigger] pending_fusion@[y] as int].0 || left_right_leaf@[pending_fusion@[y] as int].1
                    < left_right_leaf@[pending_fusion@[x] as int].0 by {
                assert(left_right_leaf@[pending_fusion@[x] as int] == (pending_fusion@[x], pending_fusion@[x]));
                assert(left_right_leaf@[pending_fusion@[y] as int] == (pending_fusion@[y], pending_fusion@[y]));
            }
            assert forall|x: int| 0 <= x < pending_fusion@.len() implies {
                &&& #[trigger] pending_fusion@[x] < left_right_leaf@.len()
                &&& region_start <= left_right_leaf@[pending_fusion@[x] as int].0 <= left_right_leaf@[pending_fusion@[x] as int].1 < region_end
            } by {
                assert(left_right_leaf@[pending_fusion@[x] as int] == (pending_fusion@[x], pending_fusion@[x]));
            }
            assert(tiles(left_right_leaf@, pending_fusion@, region_start as int, region_end as int));
        }
        let local_fusion_start_index = whole_ranges.len();
        let local_fusion_end_index = if region_end > region_start {
            local_fusion_start_index + region_end - region_start - 1
        } else {
            local_fusion_start_index
        };
        let mut unit_index: usize = local_fusion_start_index;
        while unit_index < local_fusion_end_index
            invariant
                p == partitions@.len(),
                4 * p <= usize::MAX,
                whole_ranges@.len() == p + fusions@.len(),
                left_right_leaf@.len() == whole_ranges@.len(),
                unit_index == whole_ranges@.len(),
                local_fusion_start_index <= unit_index <= local_fusion_end_index,
                local_fusion_end_index <= local_fusion_start_index + region_end - region_start,
                fusions@.len() <= region_start + region_index + (unit_index - local_fusion_start_index),
                fusions@.len() == fusions_base + (unit_index - local_fusion_start_index),
                fusions_base == (if region_index == 0 { 0 } else { region_start - 1 }),
                region_start < region_end,
                local_fusion_end_index == local_fusion_start_index + region_end - region_start - 1,
                pending_fusion@.len() == (region_end - region_start) - (unit_index - local_fusion_start_index),
                inc == starts_increasing(partitions@),
                inc ==> tiles(left_right_leaf@, pending_fusion@, region_start as int, region_end as int),
                forall|x: int| 0 <= x < p ==> #[trigger] left_right_leaf@[x] == (x as usize, x as usize),
                forall|x: int|
                    0 <= x < whole_ranges@.len() ==> #[trigger] whole_ranges@[x].range_start
                        == partitions@[left_right_leaf@[x].0 as int].range_start,
                region_end <= p,
                region_index < region_count <= p,
                forall|x: int|
                    0 <= x < left_right_leaf@.len() ==> (#[trigger] left_right_leaf@[x]).0 < p
                        && left_right_leaf@[x].1 < p,
                forall|x: int| 0 <= x < pending_fusion@.len() ==> #[trigger] pending_fusion@[x] < whole_ranges@.len(),
                fusions_well_founded(fusions@, p as int),
                last_sequential_unit matches Some(l) ==> l < whole_ranges@.len(),
                inc ==> fusions@ == tree_merges((f0, lv0, init0), (unit_index - local_fusion_start_index) as nat).0,
                inc ==> left_right_leaf@ == tree_merges((f0, lv0, init0), (unit_index - local_fusion_start_index) as nat).1,
                inc ==> pending_fusion@ == tree_merges((f0, lv0, init0), (unit_index - local_fusion_start_index) as nat).2,
            decreases local_fusion_end_index - unit_index,
        {
            if pending_fusion.len() == 0 {
                return fusions;
            }
            let ghost before = pending_fusion@;
            let ghost lrl0 = left_right_leaf@;
            let ghost fus0 = fusions@.len();
            let ghost fusv0 = fusions@;
            let mut unit_index_1 = pending_fusion.remove(0);
            proof {
                assert(pending_fusion@ =~= before.subrange(1, before.len() as int));
            }
            let mut found = false;
            let mut i: usize = 0;
            // iterate over all pending fusions to find a neighboring one
            while i < pending_fusion.len()
                invariant_except_break
                    unit_index == whole_ranges@.len(),
                    !found,
                    pending_fusion@ == before.subrange(1, before.len() as int),
                    left_right_leaf@ == lrl0,
                    fusions@.len() == fus0,
                    fusions@ == fusv0,
                    unit_index_1 == before[0],
                    forall|j: int| 1 <= j <= i ==> !bordering(lrl0[before[0] as int], lrl0[#[trigger] before[j] as int]),
                    i <= pending_fusion@.len(),
                invariant
                    inc == starts_increasing(partitions@),
                    before.len() >= 2,
                    inc ==> tiles(lrl0, before, region_start as int, region_end as int),
                    lrl0.len() == unit_index,
                    unit_index < local_fusion_end_index,
                    found ==> fusions@.len() == fus0 + 1,
                    found ==> (inc ==> tiles(left_right_leaf@, pending_fusion@, region_start as int, region_end as int)),
                    found ==> pending_fusion@.len() == before.len() - 1,
                    found && inc ==> fusions@ == merge_once((fusv0, lrl0, before)).0,
                    found && inc ==> left_right_leaf@ == merge_once((fusv0, lrl0, before)).1,
                    found && inc ==> pending_fusion@ == merge_once((fusv0, lrl0, before)).2,
                    forall|x: int| 0 <= x < p ==> #[trigger] left_right_leaf@[x] == (x as usize, x as usize),
                    forall|x: int|
                        0 <= x < whole_ranges@.len() ==> #[trigger] whole_ranges@[x].range_start
                            == partitions@[left_right_leaf@[x].0 as int].range_start,
                    p == partitions@.len(),
                    whole_ranges@.len() == p + fusions@.len(),
                    left_right_leaf@.len() == whole_ranges@.len(),
                    unit_index_1 < whole_ranges@.len(),
                    forall|x: int|
                        0 <= x < left_right_leaf@.len() ==> (#[trigger] left_right_leaf@[x]).0 < p
                            && left_right_leaf@[x].1 < p,
                    forall|x: int| 0 <= x < pending_fusion@.len() ==> #[trigger] pending_fusion@[x] < whole_ranges@.len(),
                    fusions_well_founded(fusions@, p as int),
                ensures
                    found ==> unit_index + 1 == whole_ranges@.len(),
                    !found ==> unit_index == whole_ranges@.len(),
                    !found && inc ==> forall|j: int|
                        1 <= j < before.len() ==> !bordering(lrl0[before[0] as int], lrl0[#[trigger] before[j] as int]),
                decreases pending_fusion@.len() - i,
            {
                let mut unit_index_2 = pending_fusion[i];
                let is_neighbor = left_right_leaf[unit_index_1].0 == left_right_leaf[unit_index_2].1 + 1
                    || left_right_leaf[unit_index_2].0 == left_right_leaf[unit_index_1].1 + 1;
                if is_neighbor {
                    let ghost u1 = unit_index_1;
                    let ghost u2 = unit_index_2;
                    proof {
                        assert(before[i + 1] == unit_index_2);
                        assert(bordering(lrl0[before[0] as int], lrl0[before[i + 1] as int]));
                    }
                    pending_fusion.remove(i);
                    // only lower range can fuse higher range
                    if whole_ranges[unit_index_1].range_start > whole_ranges[unit_index_2].range_start {
                        let t = unit_index_1;
                        unit_index_1 = unit_index_2;
                        unit_index_2 = t;
                    }
                    fusions.push((unit_index_1, unit_index_2));
                    pending_fusion.push(unit_index);
                    let whole_range = IndexRange {
                        range_start: whole_ranges[unit_index_1].range_start,
                        range_end: whole_ranges[unit_index_2].range_end,
                    };
                    whole_ranges.push(whole_range);
                    let leaves = (left_right_leaf[unit_index_1].0, left_right_leaf[unit_index_2].1);
                    left_right_leaf.push(leaves);
                    proof {
                        if inc {
                            let a = lrl0[u1 as int];
                            let b = lrl0[u2 as int];
                            assert(before[0] < lrl0.len() && before[i + 1] < lrl0.len());
                            assert(b.1 < a.0 || a.1 < b.0) by {
                                assert(before[0] == u1 && before[i + 1] == u2);
                            }
                            assert(partitions@[a.0 as int].range_start < partitions@[b.0 as int].range_start <==> a.0 < b.0) by {
                                if a.0 < b.0 {
                                    assert(partitions@[a.0 as int].range_start < partitions@[b.0 as int].range_start);
                                } else if b.0 < a.0 {
                                    assert(partitions@[b.0 as int].range_start < partitions@[a.0 as int].range_start);
                                }
                            }
                            lemma_merge_tiles(lrl0, before, region_start as int, region_end as int, i as int, leaves);
                            assert(pending_fusion@ =~= before.subrange(1, before.len() as int).remove(i as int).push(lrl0.len() as usize));
                            lemma_first_border(lrl0, before, 1, i + 1);
                            assert(fusions@ =~= merge_once((fusv0, lrl0, before)).0);
                            assert(left_right_leaf@ =~= merge_once((fusv0, lrl0, before)).1);
                        }
                    }
                    found = true;
                    break;
                }
                proof {
                    assert(before[i + 1] == unit_index_2);
                }
                i = i + 1;
            }
            if !found {
                proof {
                    if inc {
                        lemma_first_has_neighbor(lrl0, before, region_start as int, region_end as int);
                        let x = choose|x: int|
                            1 <= x < before.len() && bordering(lrl0[before[0] as int], lrl0[#[trigger] before[x] as int]);
                        assert(!bordering(lrl0[before[0] as int], lrl0[before[x] as int]));
                    }
                }
                // every pending unit borders on another one, so this does not happen
                return fusions;
            }
            unit_index = unit_index + 1;
        }
        if pending_fusion.len() != 1 {
            // only the final unit is left, so this does not happen
            return fusions;
        }
        let tree_root_unit_index = pending_fusion[0];
        match last_sequential_unit {
            Some(last) => {
                fusions.push((last, tree_root_unit_index));
                let whole_range = IndexRange {
                    range_start: whole_ranges[last].range_start,
                    range_end: whole_ranges[tree_root_unit_index].range_end,
                };
                whole_ranges.push(whole_range);
                let leaves = (left_right_leaf[last].0, left_right_leaf[tree_root_unit_index].1);
                left_right_leaf.push(leaves);
                last_sequential_unit = Some(tree_root_unit_index + 1);
            },
            None => {
                last_sequential_unit = Some(tree_root_unit_index);
            },
        }
        proof {
            covered = region_end as int;
            assert(region_index + 1 == region_count ==> region_end == p);
        }
        region_index = region_index + 1;
    }
    fusions
}

/// evenly partition along the time axis
pub struct PhenomenologicalPlanarCodeTimePartition {
    pub d: VertexNum,
    pub noisy_measurements: VertexNum,
    /// the number of partition
    pub partition_num: usize,
    /// enable tree fusion (to minimize latency but incur log(partition_num) more memory copy)
    pub enable_tree_fusion: bool,
    /// maximum amount of tree leaf; if the total partition is greater than this, it will be cut into multiple regions and each region is a separate tree;
    /// those trees are then fused sequentially
    pub maximum_tree_leaf_size: usize,
}

impl PhenomenologicalPlanarCodeTimePartition {
    pub fn new_tree(
        d: VertexNum,
        noisy_measurements: VertexNum,
        partition_num: usize,
        enable_tree_fusion: bool,
        maximum_tree_leaf_size: usize,
    ) -> (r: Self)
        ensures
            r.d == d,
            r.noisy_measurements == noisy_measurements,
            r.partition_num == partition_num,
            r.enable_tree_fusion == enable_tree_fusion,
            r.maximum_tree_leaf_size == maximum_tree_leaf_size,
    {
        Self { d, noisy_measurements, partition_num, enable_tree_fusion, maximum_tree_leaf_size }
    }

    pub fn new(d: VertexNum, noisy_measurements: VertexNum, partition_num: usize) -> (r: Self)
        ensures
            r.d == d,
            r.noisy_measurements == noisy_measurements,
            r.partition_num == partition_num,
            !r.enable_tree_fusion,
            r.maximum_tree_leaf_size == usize::MAX,
    {
        Self::new_tree(d, noisy_measurements, partition_num, false, usize::MAX)
    }

    /// the number of vertices in a single measurement round
    pub open spec fn spec_round_vertex_num(&self) -> int {
        self.d * (self.d + 1)
    }

    /// split the measurement rounds evenly into `partition_num` slices, each slice a leaf unit
    pub fn build_partition(&self, vertex_num: VertexNum) -> (r: PartitionConfig)
        requires
            vertex_num == self.spec_round_vertex_num() * (self.noisy_measurements + 1),
            1 <= self.partition_num <= self.noisy_measurements + 1,
            2 * self.partition_num * (self.noisy_measurements + 1) <= usize::MAX,
            self.enable_tree_fusion ==> self.maximum_tree_leaf_size >= 1,
            4 * self.partition_num <= usize::MAX,
        ensures
            r.vertex_num == vertex_num,
            r.partitions@.len() == self.partition_num,
            forall|i: int|
                0 <= i < self.partition_num ==> #[trigger] r.partitions@[i]
                    == time_partition_range(
                    i,
                    self.noisy_measurements + 1,
                    self.partition_num as int,
                    self.spec_round_vertex_num(),
                ),
            !self.enable_tree_fusion || self.maximum_tree_leaf_size == 1 ==> r.fusions@.len()
                == self.partition_num - 1,
            forall|k: int|
                0 <= k < self.partition_num - 1 && (!self.enable_tree_fusion
                    || self.maximum_tree_leaf_size == 1) ==> #[trigger] r.fusions@[k]
                    == sequential_fusion(k, self.partition_num as int),
            self.enable_tree_fusion && self.maximum_tree_leaf_size != 1 && self.d >= 1 ==> r.fusions@ == tree_fusions(
                self.partition_num as int,
                self.maximum_tree_leaf_size as int,
            ),
            fusions_well_founded(r.fusions@, self.partition_num as int),
    {
        let d = self.d;
        proof {
            let p = self.partition_num as int;
            let m = self.noisy_measurements + 1;
            assert(p * m <= usize::MAX && 2 * p <= usize::MAX) by (nonlinear_arith)
                requires
                    2 * p * m <= usize::MAX,
                    p >= 1,
                    m >= 1,
            ;
        }
        proof {
            let m = self.noisy_measurements + 1;
            assert(d * (d + 1) <= usize::MAX && d + 1 <= usize::MAX) by (nonlinear_arith)
                requires
                    d * (d + 1) * m <= usize::MAX,
                    m >= 1,
                    d >= 0,
            ;
        }
        let round_vertex_num = d * (d + 1);
        let mut config = PartitionConfig::new(vertex_num);
        config.partitions = build_time_partition_ranges(
            round_vertex_num,
            self.noisy_measurements,
            self.partition_num,
        );
        if !self.enable_tree_fusion || self.maximum_tree_leaf_size == 1 {
            config.fusions = build_sequential_fusions(self.partition_num);
            proof {
                assert forall|k: int| 0 <= k < config.fusions@.len() implies (
                #[trigger] config.fusions@[k]).0 < self.partition_num + k && config.fusions@[k].1
                    < self.partition_num + k by {
                    assert(config.fusions@[k] == sequential_fusion(k, self.partition_num as int));
                }
            }
        } else {
            proof {
                if self.d >= 1 {
                    assert(1 <= round_vertex_num) by (nonlinear_arith)
                        requires
                            round_vertex_num == self.d * (self.d + 1),
                            self.d >= 1,
                    ;
                    lemma_time_starts_increasing(
                        config.partitions@,
                        self.noisy_measurements + 1,
                        self.partition_num as int,
                        round_vertex_num as int,
                    );
                }
            }
            config.fusions = build_tree_fusions(&config.partitions, self.maximum_tree_leaf_size);
        }
        config
    }
}

/// evenly partition along the time axis
pub struct PhenomenologicalRotatedCodeTimePartition {
    pub d: VertexNum,
    pub noisy_measurements: VertexNum,
    /// the number of partition
    pub partition_num: usize,
    /// enable tree fusion (to minimize latency but incur log(partition_num) more memory copy)
    pub enable_tree_fusion: bool,
    /// maximum amount of tree leaf; if the total partition is greater than this, it will be cut into multiple regions and each region is a separate tree;
    /// those trees are then fused sequentially
    pub maximum_tree_leaf_size: usize,
}

impl PhenomenologicalRotatedCodeTimePartition {
    pub fn new_tree(
        d: VertexNum,
        noisy_measurements: VertexNum,
        partition_num: usize,
        enable_tree_fusion: bool,
        maximum_tree_leaf_size: usize,
    ) -> (r: Self)
        ensures
            r.d == d,
            r.noisy_measurements == noisy_measurements,
            r.partition_num == partition_num,
            r.enable_tree_fusion == enable_tree_fusion,
            r.maximum_tree_leaf_size == maximum_tree_leaf_size,
    {
        Self { d, noisy_measurements, partition_num, enable_tree_fusion, maximum_tree_leaf_size }
    }

    pub fn new(d: VertexNum, noisy_measurements: VertexNum, partition_num: usize) -> (r: Self)
        ensures
            r.d == d,
            r.noisy_measurements == noisy_measurements,
            r.partition_num == partition_num,
            !r.enable_tree_fusion,
            r.maximum_tree_leaf_size == usize::MAX,
    {
        Self::new_tree(d, noisy_measurements, partition_num, false, usize::MAX)
    }

    /// the number of vertices in a single measurement round
    pub open spec fn spec_round_vertex_num(&self) -> int {
        ((self.d - 1) / 2 + 1) * (self.d + 1)
    }

    /// split the measurement rounds evenly into `partition_num` slices, each slice a leaf unit
    pub fn build_partition(&self, vertex_num: VertexNum) -> (r: PartitionConfig)
        requires
            self.d >= 1,
            vertex_num == self.spec_round_vertex_num() * (self.noisy_measurements + 1),
            1 <= self.partition_num <= self.noisy_measurements + 1,
            2 * self.partition_num * (self.noisy_measurements + 1) <= usize::MAX,
            self.enable_tree_fusion ==> self.maximum_tree_leaf_size >= 1,
            4 * self.partition_num <= usize::MAX,
        ensures
            r.vertex_num == vertex_num,
            r.partitions@.len() == self.partition_num,
            forall|i: int|
                0 <= i < self.partition_num ==> #[trigger] r.partitions@[i]
                    == time_partition_range(
                    i,
                    self.noisy_measurements + 1,
                    self.partition_num as int,
                    self.spec_round_vertex_num(),
                ),
            !self.enable_tree_fusion || self.maximum_tree_leaf_size == 1 ==> r.fusions@.len()
                == self.partition_num - 1,
            forall|k: int|
                0 <= k < self.partition_num - 1 && (!self.enable_tree_fusion
                    || self.maximum_tree_leaf_size == 1) ==> #[trigger] r.fusions@[k]
                    == sequential_fusion(k, self.partition_num as int),
            self.enable_tree_fusion && self.maximum_tree_leaf_size != 1 ==> r.fusions@ == tree_fusions(
                self.partition_num as int,
                self.maximum_tree_leaf_size as int,
            ),
            fusions_well_founded(r.fusions@, self.partition_num as int),
    {
        let d = self.d;
        let row_vertex_num = (d - 1) / 2 + 1;
        proof {
            let p = self.partition_num as int;
            let m = self.noisy_measurements + 1;
            assert(p * m <= usize::MAX && 2 * p <= usize::MAX) by (nonlinear_arith)
                requires
                    2 * p * m <= usize::MAX,
                    p >= 1,
                    m >= 1,
            ;
        }
        proof {
            assert(row_vertex_num * (d + 1) <= row_vertex_num * (d + 1) * (self.noisy_measurements + 1)
                && d + 1 <= row_vertex_num * (d + 1)) by (nonlinear_arith)
                requires
                    row_vertex_num >= 1,
            ;
        }
        let round_vertex_num = row_vertex_num * (d + 1);
        let mut config = PartitionConfig::new(vertex_num);
        config.partitions = build_time_partition_ranges(
            round_vertex_num,
            self.noisy_measurements,
            self.partition_num,
        );
        if !self.enable_tree_fusion || self.maximum_tree_leaf_size == 1 {
            config.fusions = build_sequential_fusions(self.partition_num);
            proof {
                assert forall|k: int| 0 <= k < config.fusions@.len() implies (
                #[trigger] config.fusions@[k]).0 < self.partition_num + k && config.fusions@[k].1
                    < self.partition_num + k by {
                    assert(config.fusions@[k] == sequential_fusion(k, self.partition_num as int));
                }
            }
        } else {
            proof {
                lemma_time_starts_increasing(
                    config.partitions@,
                    self.noisy_measurements + 1,
                    self.partition_num as int,
                    round_vertex_num as int,
                );
            }
            config.fusions = build_tree_fusions(&config.partitions, self.maximum_tree_leaf_size);
        }
        config
    }
}

} // verus!
