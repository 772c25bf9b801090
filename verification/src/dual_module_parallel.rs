//! Parallel Dual Module
//!
//! The configuration of a dual module partitioned into serial units that are fused along
//! interfaces, and the units themselves. Units, interfaces and the serial modules they wrap are
//! kept in arenas and refer to each other by index.
//!

use crate::dual_module_serial::DualModuleSerial;
use crate::util::{SolverInitializer, VertexIndex, Weight};
use vstd::prelude::*;

verus! {

/// how the vertices are split into partitions and fused back along interfaces
#[derive(Debug, Clone)]
pub struct DualModuleParallelConfig {
    /// enable async execution of dual operations
    pub thread_pool_size: usize,
    /// detailed plan of partitioning serial modules: each serial module possesses a list of vertices, including all interface vertices
    pub partitions: Vec<Vec<VertexIndex>>,
    /// detailed plan of interfacing vertices
    pub interfaces: Vec<(usize, usize, Vec<VertexIndex>)>,
}

/// by default the number of threads follows the number of cores
pub fn thread_pool_size() -> (r: usize)
    ensures
        r == 0,
{
    0
}

/// by default there is no explicit partition, which means a single one
pub fn partitions() -> (r: Vec<Vec<VertexIndex>>)
    ensures
        r@.len() == 0,
{
    Vec::new()
}

/// by default there is no interface
pub fn interfaces() -> (r: Vec<(usize, usize, Vec<VertexIndex>)>)
    ensures
        r@.len() == 0,
{
    Vec::new()
}

impl Default for DualModuleParallelConfig {
    fn default() -> (r: Self)
        ensures
            r.thread_pool_size == 0,
            r.partitions@.len() == 0,
            r.interfaces@.len() == 0,
    {
        DualModuleParallelConfig {
            thread_pool_size: thread_pool_size(),
            partitions: partitions(),
            interfaces: interfaces(),
        }
    }
}

/// why a partition plan is refused
#[derive(Debug, Clone, Copy, PartialEq, Eq, Structural)]
pub enum PartitionError {
    /// there is no partition at all
    NoPartition,
    /// a vertex index is out of the graph
    InvalidVertex { vertex_index: VertexIndex },
    /// a vertex belongs to two partitions or interfaces
    DuplicateVertex { vertex_index: VertexIndex },
    /// an interface fuses a unit that does not come before it
    DependencyWrong { unit_index: usize, child: usize },
    /// a unit is fused twice
    FusedTwice { unit_index: usize },
    /// a unit other than the last one is never fused
    NotFused { unit_index: usize },
}

/// the vertex lists of the units: first the partitions, then the interfaces
pub open spec fn unit_vertex_lists(config: &DualModuleParallelConfig) -> Seq<Seq<VertexIndex>> {
    config.partitions@.map_values(|p: Vec<VertexIndex>| p@) + config.interfaces@.map_values(
        |t: (usize, usize, Vec<VertexIndex>)| t.2@,
    )
}

/// the units fused by the interfaces, two per interface: slot `2 * t` holds the left child of
/// interface `t` and slot `2 * t + 1` its right child
pub open spec fn fused_child(config: &DualModuleParallelConfig, slot: int) -> usize {
    let t = config.interfaces@[slot / 2];
    if slot % 2 == 0 {
        t.0
    } else {
        t.1
    }
}

/// position `(a, i)` comes before position `(pa, pi)` in the scan of the lists
pub open spec fn list_before(pa: int, pi: int, a: int, i: int) -> bool {
    a < pa || (a == pa && i < pi)
}

/// position `(a, i)`, before `(pa, pi)`, holds vertex `v`
pub open spec fn list_holds(lists: Seq<Seq<VertexIndex>>, a: int, i: int, v: int, pa: int, pi: int) -> bool {
    &&& 0 <= a < lists.len()
    &&& 0 <= i < lists[a].len()
    &&& list_before(pa, pi, a, i)
    &&& lists[a][i] == v
}

/// the positions before `(pa, pi)` hold distinct vertices of the graph
pub open spec fn lists_valid_before(lists: Seq<Seq<VertexIndex>>, vertex_num: int, pa: int, pi: int) -> bool {
    &&& forall|a: int, i: int|
        0 <= a < lists.len() && 0 <= i < lists[a].len() && list_before(pa, pi, a, i) ==> #[trigger] lists[a][i]
            < vertex_num
    &&& forall|a1: int, i1: int, a2: int, i2: int|
        #![trigger lists[a1][i1], lists[a2][i2]]
        0 <= a1 < lists.len() && 0 <= i1 < lists[a1].len() && 0 <= a2 < lists.len() && 0 <= i2
            < lists[a2].len() && list_before(pa, pi, a1, i1) && list_before(pa, pi, a2, i2) && (a1 != a2
            || i1 != i2) ==> lists[a1][i1] != lists[a2][i2]
}

/// the plan is valid for `vertex_num` vertices: at least one partition; every vertex of a
/// partition or an interface is in the graph and in no other one; every interface fuses two units
/// that come before it; no unit is fused twice; and every unit but the last is fused
pub open spec fn partition_valid(config: &DualModuleParallelConfig, vertex_num: int) -> bool {
    let lists = unit_vertex_lists(config);
    let p = config.partitions@.len() as int;
    let n = config.interfaces@.len() as int;
    &&& p > 0
    &&& lists_valid_before(lists, vertex_num, lists.len() as int, 0)
    &&& forall|t: int|
        0 <= t < n ==> (#[trigger] config.interfaces@[t]).0 < p + t && config.interfaces@[t].1 < p + t
    &&& forall|s1: int, s2: int|
        0 <= s1 < 2 * n && 0 <= s2 < 2 * n && s1 != s2 ==> #[trigger] fused_child(config, s1)
            != #[trigger] fused_child(config, s2)
    &&& forall|u: int| 0 <= u < p + n - 1 ==> #[trigger] is_fused(config, u)
}

/// some interface fuses unit `u`
pub open spec fn is_fused(config: &DualModuleParallelConfig, u: int) -> bool {
    exists|s: int| 0 <= s < 2 * config.interfaces@.len() && #[trigger] fused_child(config, s) == u
}

/// a copy of a list of vertices
fn copy_vertices(v: &Vec<VertexIndex>) -> (r: Vec<VertexIndex>)
    ensures
        r@ == v@,
{
    let mut r: Vec<VertexIndex> = Vec::new();
    let mut i: usize = 0;
    while i < v.len()
        invariant
            i <= v@.len(),
            r@ == v@.take(i as int),
        decreases v.len() - i,
    {
        r.push(v[i]);
        i = i + 1;
        proof {
            assert(v@.take(i as int) == v@.take(i - 1).push(v@[i - 1]));
        }
    }
    proof {
        assert(v@.take(v@.len() as int) == v@);
    }
    r
}

/// check that the lists hold distinct vertices of the graph
fn check_vertex_lists(lists: &Vec<Vec<VertexIndex>>, vertex_num: usize) -> (r: Result<(), PartitionError>)
    ensures
        r is Ok <==> lists_valid_before(
            lists@.map_values(|l: Vec<VertexIndex>| l@),
            vertex_num as int,
            lists@.len() as int,
            0,
        ),
{
    let ghost views = lists@.map_values(|l: Vec<VertexIndex>| l@);
    let mut owner: Vec<Option<usize>> = Vec::new();
    let mut v: usize = 0;
    while v < vertex_num
        invariant
            v <= vertex_num,
            owner@.len() == v,
            forall|x: int| 0 <= x < v ==> owner@[x] is None,
        decreases vertex_num - v,
    {
        owner.push(None);
        v = v + 1;
    }
    let mut a: usize = 0;
    while a < lists.len()
        invariant
            a <= lists@.len(),
            views == lists@.map_values(|l: Vec<VertexIndex>| l@),
            owner@.len() == vertex_num,
            lists_valid_before(views, vertex_num as int, a as int, 0),
            forall|b: int, i: int|
                0 <= b < views.len() && 0 <= i < views[b].len() && list_before(a as int, 0, b, i)
                    ==> owner@[#[trigger] views[b][i] as int] is Some,
            forall|x: int|
                0 <= x < vertex_num ==> ((#[trigger] owner@[x]) is Some ==> exists|b: int, i: int|
                    #[trigger] list_holds(views, b, i, x, a as int, 0)),
        decreases lists@.len() - a,
    {
        let list = &lists[a];
        let mut i: usize = 0;
        while i < list.len()
            invariant
                a < lists@.len(),
                list@ == views[a as int],
                i <= list@.len(),
                views == lists@.map_values(|l: Vec<VertexIndex>| l@),
                owner@.len() == vertex_num,
                lists_valid_before(views, vertex_num as int, a as int, i as int),
                forall|b: int, j: int|
                    0 <= b < views.len() && 0 <= j < views[b].len() && list_before(a as int, i as int, b, j)
                        ==> owner@[#[trigger] views[b][j] as int] is Some,
                forall|x: int|
                    0 <= x < vertex_num ==> ((#[trigger] owner@[x]) is Some ==> exists|b: int, j: int|
                        #[trigger] list_holds(views, b, j, x, a as int, i as int)),
            decreases list@.len() - i,
        {
            let vertex_index = list[i];
            if vertex_index >= vertex_num {
                proof {
                    assert(views[a as int][i as int] == vertex_index);
                    assert(!lists_valid_before(views, vertex_num as int, lists@.len() as int, 0));
                }
                return Err(PartitionError::InvalidVertex { vertex_index });
            }
            if owner[vertex_index].is_some() {
                proof {
                    let (b, j) = choose|b: int, j: int|
                        #[trigger] list_holds(views, b, j, vertex_index as int, a as int, i as int);
                    assert(views[b][j] == views[a as int][i as int]);
                    assert(!lists_valid_before(views, vertex_num as int, lists@.len() as int, 0));
                }
                return Err(PartitionError::DuplicateVertex { vertex_index });
            }
            let ghost old_owner = owner@;
            owner.set(vertex_index, Some(a));
            proof {
                assert(views[a as int][i as int] == vertex_index);
                assert forall|b: int, j: int|
                    0 <= b < views.len() && 0 <= j < views[b].len() && list_before(a as int, i + 1, b, j)
                        implies owner@[#[trigger] views[b][j] as int] is Some by {
                    if list_before(a as int, i as int, b, j) {
                        assert(old_owner[views[b][j] as int] is Some);
                    }
                }
                assert forall|x: int|
                    0 <= x < vertex_num implies ((#[trigger] owner@[x]) is Some ==> exists|b: int, j: int|
                    #[trigger] list_holds(views, b, j, x, a as int, i + 1)) by {
                    if x == vertex_index as int {
                        assert(list_holds(views, a as int, i as int, x, a as int, i + 1));
                    } else if owner@[x] is Some {
                        assert(old_owner[x] is Some);
                        let (b, j) = choose|b: int, j: int| #[trigger] list_holds(views, b, j, x, a as int, i as int);
                        assert(list_holds(views, b, j, x, a as int, i + 1));
                    }
                }
                assert forall|a1: int, i1: int, a2: int, i2: int|
                    #![trigger views[a1][i1], views[a2][i2]]
                    0 <= a1 < views.len() && 0 <= i1 < views[a1].len() && 0 <= a2 < views.len() && 0 <= i2
                        < views[a2].len() && list_before(a as int, i + 1, a1, i1) && list_before(
                        a as int,
                        i + 1,
                        a2,
                        i2,
                    ) && (a1 != a2 || i1 != i2) implies views[a1][i1] != views[a2][i2] by {
                    if a1 == a as int && i1 == i as int {
                        if views[a2][i2] == vertex_index {
                            assert(old_owner[views[a2][i2] as int] is Some);
                        }
                    } else if a2 == a as int && i2 == i as int {
                        if views[a1][i1] == vertex_index {
                            assert(old_owner[views[a1][i1] as int] is Some);
                        }
                    }
                }
            }
            i = i + 1;
        }
        proof {
            assert forall|x: int|
                0 <= x < vertex_num implies ((#[trigger] owner@[x]) is Some ==> exists|b: int, j: int|
                #[trigger] list_holds(views, b, j, x, a + 1, 0)) by {
                if owner@[x] is Some {
                    let (b, j) = choose|b: int, j: int|
                        #[trigger] list_holds(views, b, j, x, a as int, list@.len() as int);
                    assert(list_holds(views, b, j, x, a + 1, 0));
                }
            }
            assert forall|b: int, j: int|
                0 <= b < views.len() && 0 <= j < views[b].len() && list_before(a + 1, 0, b, j) implies owner@[
                #[trigger] views[b][j] as int] is Some by {
                assert(list_before(a as int, list@.len() as int, b, j));
            }
            assert forall|a1: int, i1: int, a2: int, i2: int|
                #![trigger views[a1][i1], views[a2][i2]]
                0 <= a1 < views.len() && 0 <= i1 < views[a1].len() && 0 <= a2 < views.len() && 0 <= i2
                    < views[a2].len() && list_before(a + 1, 0, a1, i1) && list_before(a + 1, 0, a2, i2) && (a1
                    != a2 || i1 != i2) implies views[a1][i1] != views[a2][i2] by {
                assert(list_before(a as int, list@.len() as int, a1, i1));
                assert(list_before(a as int, list@.len() as int, a2, i2));
            }
            assert forall|b: int, j: int|
                0 <= b < views.len() && 0 <= j < views[b].len() && list_before(a + 1, 0, b, j) implies #[trigger] views[b][j]
                < vertex_num by {
                assert(list_before(a as int, list@.len() as int, b, j));
            }
        }
        a = a + 1;
    }
    Ok(())
}

impl DualModuleParallelConfig {
    /// check the partition plan against the graph: see [`partition_valid`]
    pub fn partition_sanity_check(&self, initializer: &SolverInitializer) -> (r: Result<(), PartitionError>)
        requires
            self.partitions@.len() + self.interfaces@.len() <= usize::MAX,
        ensures
            r is Ok <==> partition_valid(self, initializer.vertex_num as int),
    {
        let p = self.partitions.len();
        let n = self.interfaces.len();
        if p == 0 {
            return Err(PartitionError::NoPartition);
        }
        // first verify that each vertex is only present in a single partition
        let mut lists: Vec<Vec<VertexIndex>> = Vec::new();
        let mut k: usize = 0;
        while k < p
            invariant
                k <= p == self.partitions@.len(),
                lists@.map_values(|l: Vec<VertexIndex>| l@) == self.partitions@.take(k as int).map_values(
                    |x: Vec<VertexIndex>| x@,
                ),
            decreases p - k,
        {
            let ghost before = lists@;
            let copy = copy_vertices(&self.partitions[k]);
            lists.push(copy);
            k = k + 1;
            proof {
                let lv = lists@.map_values(|l: Vec<VertexIndex>| l@);
                let bv = before.map_values(|l: Vec<VertexIndex>| l@);
                let pk = self.partitions@.take(k as int).map_values(|x: Vec<VertexIndex>| x@);
                let pk1 = self.partitions@.take(k - 1).map_values(|x: Vec<VertexIndex>| x@);
                assert(bv.len() == pk1.len());
                assert(before.len() == k - 1);
                assert(lists@ == before.push(copy));
                assert forall|i: int| 0 <= i < k implies #[trigger] lv[i] == pk[i] by {
                    if i < k - 1 {
                        assert(lists@[i] == before[i]);
                        assert(bv[i] == pk1[i]);
                    }
                }
                assert(lv =~= pk);
            }
        }
        let mut t: usize = 0;
        while t < n
            invariant
                t <= n == self.interfaces@.len(),
                p == self.partitions@.len(),
                lists@.map_values(|l: Vec<VertexIndex>| l@) == self.partitions@.map_values(
                    |x: Vec<VertexIndex>| x@,
                ) + self.interfaces@.take(t as int).map_values(
                    |x: (usize, usize, Vec<VertexIndex>)| x.2@,
                ),
            decreases n - t,
        {
            proof {
                assert(self.partitions@.take(p as int) == self.partitions@);
            }
            let ghost before = lists@;
            let copy = copy_vertices(&self.interfaces[t].2);
            lists.push(copy);
            t = t + 1;
            proof {
                let pv = self.partitions@.map_values(|x: Vec<VertexIndex>| x@);
                let lv = lists@.map_values(|l: Vec<VertexIndex>| l@);
                let bv = before.map_values(|l: Vec<VertexIndex>| l@);
                let target = pv + self.interfaces@.take(t as int).map_values(
                    |x: (usize, usize, Vec<VertexIndex>)| x.2@,
                );
                let target1 = pv + self.interfaces@.take(t - 1).map_values(
                    |x: (usize, usize, Vec<VertexIndex>)| x.2@,
                );
                assert(bv.len() == target1.len());
                assert(before.len() == p + t - 1);
                assert(lists@ == before.push(copy));
                assert forall|i: int| 0 <= i < p + t implies #[trigger] lv[i] == target[i] by {
                    if i < p + t - 1 {
                        assert(lists@[i] == before[i]);
                        assert(bv[i] == target1[i]);
                    }
                }
                assert(lv =~= target);
            }
        }
        proof {
            assert(self.partitions@.take(p as int) == self.partitions@);
            assert(self.interfaces@.take(n as int) == self.interfaces@);
            assert(lists@.map_values(|l: Vec<VertexIndex>| l@) =~= unit_vertex_lists(self));
        }
        match check_vertex_lists(&lists, initializer.vertex_num) {
            Ok(()) => {},
            Err(e) => {
                return Err(e);
            },
        }
        // then verify the fusion tree
        let mut parents: Vec<Option<usize>> = Vec::new();
        let mut u: usize = 0;
        while u < p + n
            invariant
                u <= p + n,
                p + n <= usize::MAX,
                p == self.partitions@.len(),
                n == self.interfaces@.len(),
                parents@.len() == u,
                forall|x: int| 0 <= x < u ==> parents@[x] is None,
            decreases p + n - u,
        {
            parents.push(None);
            u = u + 1;
        }
        let mut t: usize = 0;
        while t < n
            invariant
                t <= n == self.interfaces@.len(),
                p == self.partitions@.len(),
                p + n <= usize::MAX,
                p > 0,
                parents@.len() == p + n,
                forall|t2: int| 0 <= t2 < t ==> (#[trigger] self.interfaces@[t2]).0 < p + t2
                    && self.interfaces@[t2].1 < p + t2,
                forall|s1: int, s2: int|
                    0 <= s1 < 2 * t && 0 <= s2 < 2 * t && s1 != s2 ==> #[trigger] fused_child(self, s1)
                        != #[trigger] fused_child(self, s2),
                forall|s: int| 0 <= s < 2 * t ==> parents@[#[trigger] fused_child(self, s) as int] is Some,
                forall|x: int|
                    0 <= x < p + n ==> ((#[trigger] parents@[x]) is Some ==> exists|s: int|
                        0 <= s < 2 * t && #[trigger] fused_child(self, s) == x),
            decreases n - t,
        {
            let unit_index = t + p;
            let left_index = self.interfaces[t].0;
            let right_index = self.interfaces[t].1;
            proof {
                assert(fused_child(self, 2 * t as int) == left_index);
                assert(fused_child(self, 2 * t + 1) == right_index);
            }
            if left_index >= unit_index {
                proof {
                    assert(!partition_valid(self, initializer.vertex_num as int)) by {
                        assert(self.interfaces@[t as int].0 == left_index);
                    }
                }
                return Err(PartitionError::DependencyWrong { unit_index, child: left_index });
            }
            if right_index >= unit_index {
                proof {
                    assert(!partition_valid(self, initializer.vertex_num as int)) by {
                        assert(self.interfaces@[t as int].1 == right_index);
                    }
                }
                return Err(PartitionError::DependencyWrong { unit_index, child: right_index });
            }
            if parents[left_index].is_some() {
                proof {
                    let s = choose|s: int| 0 <= s < 2 * t && #[trigger] fused_child(self, s) == left_index;
                    assert(fused_child(self, s) == fused_child(self, 2 * t as int));
                }
                return Err(PartitionError::FusedTwice { unit_index: left_index });
            }
            let ghost old_parents = parents@;
            parents.set(left_index, Some(unit_index));
            if parents[right_index].is_some() {
                proof {
                    if right_index == left_index {
                        assert(fused_child(self, 2 * t as int) == fused_child(self, 2 * t + 1));
                    } else {
                        assert(old_parents[right_index as int] is Some);
                        let s = choose|s: int| 0 <= s < 2 * t && #[trigger] fused_child(self, s) == right_index;
                        assert(fused_child(self, s) == fused_child(self, 2 * t + 1));
                    }
                }
                return Err(PartitionError::FusedTwice { unit_index: right_index });
            }
            let ghost mid_parents = parents@;
            parents.set(right_index, Some(unit_index));
            proof {
                assert forall|s1: int, s2: int|
                    0 <= s1 < 2 * (t + 1) && 0 <= s2 < 2 * (t + 1) && s1 != s2 implies #[trigger] fused_child(
                    self,
                    s1,
                ) != #[trigger] fused_child(self, s2) by {
                    if s1 >= 2 * t && s2 < 2 * t {
                        assert(old_parents[fused_child(self, s2) as int] is Some);
                    } else if s2 >= 2 * t && s1 < 2 * t {
                        assert(old_parents[fused_child(self, s1) as int] is Some);
                    } else if s1 >= 2 * t && s2 >= 2 * t {
                        assert(mid_parents[right_index as int] is None);
                    }
                }
                assert forall|s: int| 0 <= s < 2 * (t + 1) implies parents@[#[trigger] fused_child(
                    self,
                    s,
                ) as int] is Some by {
                    if s < 2 * t {
                        assert(old_parents[fused_child(self, s) as int] is Some);
                    }
                }
                assert forall|x: int|
                    0 <= x < p + n implies ((#[trigger] parents@[x]) is Some ==> exists|s: int|
                    0 <= s < 2 * (t + 1) && #[trigger] fused_child(self, s) == x) by {
                    if x == left_index as int {
                        assert(fused_child(self, 2 * t as int) == x);
                    } else if x == right_index as int {
                        assert(fused_child(self, 2 * t + 1) == x);
                    } else if parents@[x] is Some {
                        assert(old_parents[x] is Some);
                        let s = choose|s: int| 0 <= s < 2 * t && #[trigger] fused_child(self, s) == x;
                        assert(fused_child(self, s) == x);
                    }
                }
            }
            t = t + 1;
        }
        // check that all nodes except for the last one has been merged
        let mut u: usize = 0;
        while u < p + n - 1
            invariant
                u <= p + n - 1,
                p + n <= usize::MAX,
                p == self.partitions@.len(),
                n == self.interfaces@.len(),
                p > 0,
                parents@.len() == p + n,
                forall|x: int| 0 <= x < u ==> #[trigger] is_fused(self, x),
                forall|x: int|
                    0 <= x < p + n ==> ((#[trigger] parents@[x]) is Some ==> exists|s: int|
                        0 <= s < 2 * n && #[trigger] fused_child(self, s) == x),
                forall|s: int| 0 <= s < 2 * n ==> parents@[#[trigger] fused_child(self, s) as int] is Some,
            decreases p + n - 1 - u,
        {
            if parents[u].is_none() {
                proof {
                    if partition_valid(self, initializer.vertex_num as int) {
                        assert(is_fused(self, u as int));
                        let s = choose|s: int| 0 <= s < 2 * n && #[trigger] fused_child(self, s) == u;
                        assert(parents@[fused_child(self, s) as int] is Some);
                    }
                }
                return Err(PartitionError::NotFused { unit_index: u });
            }
            proof {
                assert(parents@[u as int] is Some);
                assert(is_fused(self, u as int));
            }
            u = u + 1;
        }
        Ok(())
    }
}

/// a unit of the parallel dual module: either a wrapper of a serial module or the fusion of two
/// children units along an interface
pub struct DualModuleParallelUnit {
    /// fused module is not accessible globally: it must be accessed from its parent
    pub is_fused: bool,
    /// whether it's active or not; some units are "placeholder" units that are not active until they actually fuse their children
    pub is_active: bool,
    /// `Some(_)` only if this parallel dual module is a simple wrapper of a serial dual module
    pub wrapped_module: Option<DualModuleSerial>,
    /// left and right children units
    pub children: Option<(usize, usize)>,
    /// parent unit
    pub parent: Option<usize>,
    /// interfacing nodes between the left and right
    pub nodes: Vec<Option<usize>>,
    /// the interfaces of this unit
    pub interfaces: Vec<usize>,
}

/// a unit is owned by the parallel module, so its handle is the unit itself
pub type DualModuleParallelUnitPtr = DualModuleParallelUnit;

impl DualModuleParallelUnit {
    /// create a simple wrapper over a serial dual module
    pub fn new_wrapper(dual_module: DualModuleSerial) -> (r: Self)
        ensures
            r.is_active,
            !r.is_fused,
            r.wrapped_module == Some(dual_module),
            r.children is None,
            r.parent is None,
            r.nodes@.len() == 0,
            r.interfaces@.len() == 0,
    {
        DualModuleParallelUnit {
            is_active: true,
            is_fused: false,
            wrapped_module: Some(dual_module),
            children: None,
            parent: None,
            interfaces: Vec::new(),
            nodes: Vec::new(),
        }
    }
}

/// the serial modules that share an interface and the interfacing vertices in each of them
pub struct InterfaceData {
    /// the serial dual modules that processes these virtual vertices,
    pub possession_modules: Vec<usize>,
    /// the virtual vertices references in different modules, [idx of serial dual module] [idx of interfacing vertex]
    pub interfacing_vertices: Vec<Vec<usize>>,
}

/// interface between dual modules, consisting of a list of nodes of virtual nodes that sits on different modules
pub struct Interface {
    /// unique interface id for ease of zero-cost switching
    pub interface_id: usize,
    /// link to interface data
    pub data: usize,
}


/// the parallel dual module: serial units, one per partition, fused along interfaces
pub struct DualModuleParallel {
    /// the basic wrapped serial modules at the beginning, afterwards the fused units are appended after them
    pub units: Vec<DualModuleParallelUnit>,
    /// local configuration
    pub config: DualModuleParallelConfig,
    /// the decoding graph
    pub initializer: SolverInitializer,
    /// the unit that each vertex belongs to: its partition or its interface
    pub vertex_to_unit: Vec<usize>,
}

/// a copy of a list of weighted edges
fn copy_edges(v: &Vec<(VertexIndex, VertexIndex, Weight)>) -> (r: Vec<(VertexIndex, VertexIndex, Weight)>)
    ensures
        r@ == v@,
{
    let mut r: Vec<(VertexIndex, VertexIndex, Weight)> = Vec::new();
    let mut i: usize = 0;
    while i < v.len()
        invariant
            i <= v@.len(),
            r@ == v@.take(i as int),
        decreases v.len() - i,
    {
        r.push(v[i]);
        i = i + 1;
        proof {
            assert(v@.take(i as int) == v@.take(i - 1).push(v@[i - 1]));
        }
    }
    proof {
        assert(v@.take(v@.len() as int) == v@);
    }
    r
}

/// a copy of the decoding graph
fn copy_initializer(initializer: &SolverInitializer) -> (r: SolverInitializer)
    ensures
        r.vertex_num == initializer.vertex_num,
        r.weighted_edges@ == initializer.weighted_edges@,
        r.virtual_vertices@ == initializer.virtual_vertices@,
{
    SolverInitializer::new(
        initializer.vertex_num,
        copy_edges(&initializer.weighted_edges),
        copy_vertices(&initializer.virtual_vertices),
    )
}

/// the list `[0, n)`
fn all_vertices(n: usize) -> (r: Vec<VertexIndex>)
    ensures
        r@ == Seq::new(n as nat, |i: int| i as usize),
{
    let mut r: Vec<VertexIndex> = Vec::new();
    let mut i: usize = 0;
    while i < n
        invariant
            i <= n,
            r@ == Seq::new(i as nat, |j: int| j as usize),
        decreases n - i,
    {
        r.push(i);
        i = i + 1;
        proof {
            assert(r@ =~= Seq::new(i as nat, |j: int| j as usize));
        }
    }
    r
}

/// the position `(a, i)` of the lists holds vertex `v`
pub open spec fn list_has(lists: Seq<Seq<VertexIndex>>, a: int, i: int, v: int) -> bool {
    0 <= a < lists.len() && 0 <= i < lists[a].len() && lists[a][i] == v
}

/// the unit of each vertex: the list that holds it, `usize::MAX` for a vertex that no list holds
pub open spec fn units_of_vertices(lists: Seq<Seq<VertexIndex>>, vertex_num: int, r: Seq<usize>) -> bool {
    &&& r.len() == vertex_num
    &&& forall|a: int, i: int| #[trigger] list_has(lists, a, i, lists[a][i] as int) ==> r[lists[a][i] as int] == a
    &&& forall|v: int|
        0 <= v < vertex_num && !(exists|a: int, i: int| #[trigger] list_has(lists, a, i, v)) ==> r[v] == usize::MAX
}

/// the unit of each vertex, with the lists valid for the graph
fn vertex_units(lists: &Vec<Vec<VertexIndex>>, vertex_num: usize) -> (r: Vec<usize>)
    requires
        lists_valid_before(lists@.map_values(|l: Vec<VertexIndex>| l@), vertex_num as int, lists@.len() as int, 0),
    ensures
        units_of_vertices(lists@.map_values(|l: Vec<VertexIndex>| l@), vertex_num as int, r@),
{
    let ghost views = lists@.map_values(|l: Vec<VertexIndex>| l@);
    let mut r: Vec<usize> = Vec::new();
    let mut v: usize = 0;
    while v < vertex_num
        invariant
            v <= vertex_num,
            r@.len() == v,
            forall|x: int| 0 <= x < v ==> r@[x] == usize::MAX,
        decreases vertex_num - v,
    {
        r.push(usize::MAX);
        v = v + 1;
    }
    let mut a: usize = 0;
    while a < lists.len()
        invariant
            a <= lists@.len(),
            views == lists@.map_values(|l: Vec<VertexIndex>| l@),
            lists_valid_before(views, vertex_num as int, lists@.len() as int, 0),
            r@.len() == vertex_num,
            forall|b: int, i: int| #[trigger] list_has(views, b, i, views[b][i] as int) && b < a ==> r@[views[b][i] as int] == b,
            forall|x: int|
                0 <= x < vertex_num && r@[x] != usize::MAX ==> exists|b: int, i: int| #[trigger] list_has(views, b, i, x),
        decreases lists@.len() - a,
    {
        let list = &lists[a];
        let mut i: usize = 0;
        while i < list.len()
            invariant
                a < lists@.len(),
                list@ == views[a as int],
                i <= list@.len(),
                views == lists@.map_values(|l: Vec<VertexIndex>| l@),
                lists_valid_before(views, vertex_num as int, lists@.len() as int, 0),
                r@.len() == vertex_num,
                forall|b: int, j: int|
                    #[trigger] list_has(views, b, j, views[b][j] as int) && (b < a || (b == a && j < i)) ==> r@[views[b][j] as int] == b,
                forall|x: int|
                    0 <= x < vertex_num && r@[x] != usize::MAX ==> exists|b: int, j: int| #[trigger] list_has(views, b, j, x),
            decreases list@.len() - i,
        {
            let vertex_index = list[i];
            proof {
                assert(views[a as int][i as int] == vertex_index);
                assert(list_before(lists@.len() as int, 0, a as int, i as int));
            }
            let ghost old_r = r@;
            r.set(vertex_index, a);
            proof {
                assert(list_has(views, a as int, i as int, vertex_index as int));
                assert forall|b: int, j: int|
                    #[trigger] list_has(views, b, j, views[b][j] as int) && (b < a || (b == a && j < i + 1)) implies r@[views[b][j] as int] == b by {
                    if !(b == a && j == i) {
                        assert(list_before(lists@.len() as int, 0, b, j));
                        assert(views[b][j] != views[a as int][i as int]);
                        assert(old_r[views[b][j] as int] == b);
                    }
                }
                assert forall|x: int|
                    0 <= x < vertex_num && r@[x] != usize::MAX implies exists|b: int, j: int| #[trigger] list_has(views, b, j, x) by {
                    if x == vertex_index as int {
                        assert(list_has(views, a as int, i as int, x));
                    } else {
                        assert(old_r[x] != usize::MAX);
                    }
                }
            }
            i = i + 1;
        }
        a = a + 1;
    }
    proof {
        assert forall|v: int|
            0 <= v < vertex_num && !(exists|b: int, i: int| #[trigger] list_has(views, b, i, v)) implies r@[v] == usize::MAX by {
            if r@[v] != usize::MAX {
                let (b, i) = choose|b: int, i: int| #[trigger] list_has(views, b, i, v);
                assert(list_has(views, b, i, v));
            }
        }
    }
    r
}

impl DualModuleParallel {
    /// the parallel dual module for a graph and a partition plan: no plan means one partition of
    /// every vertex, wrapped as the only unit; with several partitions each vertex is assigned to
    /// the partition or interface that holds it
    pub fn new_config(initializer: &SolverInitializer, config: DualModuleParallelConfig) -> (r: Self)
        requires
            DualModuleSerial::initializer_valid(initializer),
            config.partitions@.len() <= 1 ==> config.interfaces@.len() == 0,
            config.partitions@.len() > 1 ==> partition_valid(&config, initializer.vertex_num as int),
            config.partitions@.len() + config.interfaces@.len() <= usize::MAX,
        ensures
            r.initializer.vertex_num == initializer.vertex_num,
            r.initializer.weighted_edges@ == initializer.weighted_edges@,
            r.initializer.virtual_vertices@ == initializer.virtual_vertices@,
            r.config.thread_pool_size == config.thread_pool_size,
            r.config.interfaces == config.interfaces,
            config.partitions@.len() == 0 ==> r.config.partitions@.len() == 1 && r.config.partitions@[0]@
                == Seq::new(initializer.vertex_num as nat, |i: int| i as usize),
            config.partitions@.len() > 0 ==> r.config.partitions == config.partitions,
            r.config.partitions@.len() == 1 ==> {
                &&& r.units@.len() == 1
                &&& r.units@[0].is_active
                &&& !r.units@[0].is_fused
                &&& r.units@[0].children is None
                &&& r.units@[0].wrapped_module matches Some(m) && {
                    &&& m.wf()
                    &&& m.vertices@.len() == initializer.vertex_num
                    &&& m.edges@.len() == initializer.weighted_edges@.len()
                    &&& m.nodes_length == 0
                }
                &&& r.vertex_to_unit@ == Seq::new(initializer.vertex_num as nat, |i: int| 0usize)
            },
            r.config.partitions@.len() > 1 ==> {
                &&& r.units@.len() == 0
                &&& units_of_vertices(unit_vertex_lists(&r.config), initializer.vertex_num as int, r.vertex_to_unit@)
            },
    {
        let mut config = config;
        if config.partitions.len() == 0 {
            config.partitions = vec![all_vertices(initializer.vertex_num)];
        }
        let mut units: Vec<DualModuleParallelUnit> = Vec::new();
        let mut vertex_to_unit: Vec<usize> = Vec::new();
        if config.partitions.len() == 1 {
            // no partition
            let dual_module = DualModuleSerial::new_empty(initializer);
            units.push(DualModuleParallelUnit::new_wrapper(dual_module));
            let mut v: usize = 0;
            while v < initializer.vertex_num
                invariant
                    v <= initializer.vertex_num,
                    vertex_to_unit@ == Seq::new(v as nat, |i: int| 0usize),
                decreases initializer.vertex_num - v,
            {
                // all vertices belongs to the only unit
                vertex_to_unit.push(0);
                v = v + 1;
                proof {
                    assert(vertex_to_unit@ =~= Seq::new(v as nat, |i: int| 0usize));
                }
            }
        } else {
            // multiple partitions, the lists of the partitions and then of the interfaces
            let mut lists: Vec<Vec<VertexIndex>> = Vec::new();
            let mut a: usize = 0;
            while a < config.partitions.len()
                invariant
                    a <= config.partitions@.len(),
                    lists@.len() == a,
                    forall|j: int| 0 <= j < a ==> (#[trigger] lists@[j])@ == config.partitions@[j]@,
                decreases config.partitions@.len() - a,
            {
                lists.push(copy_vertices(&config.partitions[a]));
                a = a + 1;
            }
            let p = config.partitions.len();
            let mut t: usize = 0;
            while t < config.interfaces.len()
                invariant
                    t <= config.interfaces@.len(),
                    p == config.partitions@.len(),
                    lists@.len() == p + t,
                    forall|j: int| 0 <= j < p ==> (#[trigger] lists@[j])@ == config.partitions@[j]@,
                    forall|j: int| 0 <= j < t ==> (#[trigger] lists@[p + j])@ == config.interfaces@[j].2@,
                decreases config.interfaces@.len() - t,
            {
                lists.push(copy_vertices(&config.interfaces[t].2));
                t = t + 1;
                proof {
                    assert(lists@[p + t - 1]@ == config.interfaces@[t - 1].2@);
                }
            }
            proof {
                let lhs = lists@.map_values(|l: Vec<VertexIndex>| l@);
                let rhs = unit_vertex_lists(&config);
                assert forall|j: int| 0 <= j < lhs.len() implies lhs[j] == rhs[j] by {
                    if j >= p {
                        assert(lists@[p + (j - p)]@ == config.interfaces@[j - p].2@);
                    }
                }
                assert(lhs =~= rhs);
            }
            vertex_to_unit = vertex_units(&lists, initializer.vertex_num);
        }
        DualModuleParallel { initializer: copy_initializer(initializer), units, vertex_to_unit, config }
    }
}

} // verus!
