//! Fusion Blossom: a decoder of quantum error correction codes, which matches the defects of a
//! syndrome with a minimum-weight perfect matching of a decoding graph.

pub mod blossom_v;
pub mod complete_graph;
pub mod dual_module;
pub mod dual_module_parallel;
pub mod dual_module_serial;
pub mod example_codes;
pub mod example_partition;
pub mod fusion_single_thread;
pub mod primal_module;
pub mod priority;
pub mod util;

use crate::blossom_v::{MatchingProblem, MAX_MATCHING_VERTICES};
use crate::complete_graph::{
    edges_valid, graph_has_path, graph_reachable, initializer_fits, path_weight, CompleteGraph,
    PrebuiltCompleteGraph, MAX_EDGE_WEIGHT, MAX_VERTEX_NUM,
};
use crate::util::{DefectIndex, SolverInitializer, VertexIndex, Weight};
use std::collections::BTreeMap;
use vstd::prelude::*;
use vstd::set_lib::set_int_range;

verus! {

/// the weights of matching the defects: each boundary is a path to a virtual vertex, each pair
/// of defects a path between them, and a pair no better than both boundaries is left out
pub open spec fn defect_weights_valid(
    graph: CompleteGraph,
    is_virtual: Seq<bool>,
    defect_vertices: Seq<VertexIndex>,
    boundaries: Seq<Option<(VertexIndex, Weight)>>,
    problem: MatchingProblem,
) -> bool {
    &&& problem.wf()
    &&& problem.n == defect_vertices.len()
    &&& boundaries.len() == defect_vertices.len()
    &&& forall|i: int|
        0 <= i < problem.n ==> match #[trigger] boundaries[i] {
            Some((b, w)) => {
                &&& b < is_virtual.len()
                &&& is_virtual[b as int]
                &&& graph.has_path(defect_vertices[i], b, w as int)
                &&& problem.solo@[i] == Some(w)
            },
            None => problem.solo@[i] is None,
        }
    &&& forall|i: int|
        0 <= i < problem.n ==> nearest_boundary(graph, is_virtual, defect_vertices[i], #[trigger] boundaries[i])
    &&& forall|i: int, j: int|
        0 <= i < j < problem.n ==> (#[trigger] problem.pair@[i]@[j] matches Some(w) ==> {
            &&& graph.has_path(defect_vertices[i], defect_vertices[j], w as int)
            &&& !PrebuiltCompleteGraph::dominated_by_boundary(w, boundaries[i], boundaries[j])
        })
}

/// `boundary` is a virtual vertex nearest to defect `d`: no path from `d` to a virtual vertex
/// weighs less than it, and there is none only where no virtual vertex can be reached from `d`
pub open spec fn nearest_boundary(
    graph: CompleteGraph,
    is_virtual: Seq<bool>,
    d: VertexIndex,
    boundary: Option<(VertexIndex, Weight)>,
) -> bool {
    forall|path: Seq<(VertexIndex, Weight)>|
        #[trigger] graph.is_weighted_path(d, path) && path.len() >= 1 && path.last().0 < is_virtual.len()
            && is_virtual[path.last().0 as int] ==> (boundary matches Some((b, w)) && w <= path_weight(path))
}

/// `result` gives each defect its match: the defect it is paired with, or its boundary vertex
pub open spec fn matching_result(
    defect_vertices: Seq<VertexIndex>,
    boundaries: Seq<Option<(VertexIndex, Weight)>>,
    peer: Seq<Option<usize>>,
    result: Seq<VertexIndex>,
) -> bool {
    &&& result.len() == peer.len()
    &&& forall|i: int|
        0 <= i < peer.len() ==> #[trigger] result[i] == match peer[i] {
            Some(j) => defect_vertices[j as int],
            None => boundaries[i]->Some_0.0,
        }
}

/// the matching found for the defects is a minimum-weight perfect matching of them, with the
/// weights of paths in `graph`; the result is empty when no perfect matching exists
pub open spec fn is_defect_matching(
    graph: CompleteGraph,
    is_virtual: Seq<bool>,
    defect_vertices: Seq<VertexIndex>,
    result: Seq<VertexIndex>,
) -> bool {
    exists|boundaries: Seq<Option<(VertexIndex, Weight)>>, problem: MatchingProblem|
        #[trigger] defect_weights_valid(graph, is_virtual, defect_vertices, boundaries, problem)
            && if problem.best(set_int_range(0, problem.n as int)) is None {
            result.len() == 0
        } else {
            exists|peer: Seq<Option<usize>>|
                #[trigger] problem.is_perfect_matching(peer) && Some(problem.matching_weight(peer))
                    == problem.best(set_int_range(0, problem.n as int)) && matching_result(
                    defect_vertices,
                    boundaries,
                    peer,
                    result,
                )
        }
}

/// A defect matched to a virtual vertex is matched to a nearest one: some path from the defect to
/// the vertex it is matched to weighs no more than any path from the defect to any virtual vertex.
pub proof fn lemma_matched_boundary_nearest(
    graph: CompleteGraph,
    is_virtual: Seq<bool>,
    defect_vertices: Seq<VertexIndex>,
    result: Seq<VertexIndex>,
    i: int,
    path: Seq<(VertexIndex, Weight)>,
)
    requires
        is_defect_matching(graph, is_virtual, defect_vertices, result),
        forall|j: int|
            0 <= j < defect_vertices.len() ==> #[trigger] defect_vertices[j] < is_virtual.len()
                && !is_virtual[defect_vertices[j] as int],
        0 <= i < result.len(),
        result[i] < is_virtual.len(),
        is_virtual[result[i] as int],
        graph.is_weighted_path(defect_vertices[i], path),
        path.len() >= 1,
        path.last().0 < is_virtual.len(),
        is_virtual[path.last().0 as int],
    ensures
        exists|w: int| #[trigger] graph.has_path(defect_vertices[i], result[i], w) && w <= path_weight(path),
{
    let (boundaries, problem) = choose|boundaries: Seq<Option<(VertexIndex, Weight)>>, problem: MatchingProblem|
        #[trigger] defect_weights_valid(graph, is_virtual, defect_vertices, boundaries, problem)
            && if problem.best(set_int_range(0, problem.n as int)) is None {
            result.len() == 0
        } else {
            exists|peer: Seq<Option<usize>>|
                #[trigger] problem.is_perfect_matching(peer) && Some(problem.matching_weight(peer))
                    == problem.best(set_int_range(0, problem.n as int)) && matching_result(
                    defect_vertices,
                    boundaries,
                    peer,
                    result,
                )
        };
    let peer = choose|peer: Seq<Option<usize>>|
        #[trigger] problem.is_perfect_matching(peer) && Some(problem.matching_weight(peer))
            == problem.best(set_int_range(0, problem.n as int)) && matching_result(
            defect_vertices,
            boundaries,
            peer,
            result,
        );
    assert(result[i] == match peer[i] {
        Some(j) => defect_vertices[j as int],
        None => boundaries[i]->Some_0.0,
    });
    match peer[i] {
        Some(j) => {
            assert(j < problem.n);
            assert(defect_vertices[j as int] < is_virtual.len() && !is_virtual[defect_vertices[j as int] as int]);
        },
        None => {
            assert(problem.solo@[i] is Some);
            assert(nearest_boundary(graph, is_virtual, defect_vertices[i], boundaries[i]));
            let (b, w) = boundaries[i]->Some_0;
            assert(graph.has_path(defect_vertices[i], b, w as int));
        },
    }
}

/// the defects are distinct real vertices of the graph
pub open spec fn defects_valid(initializer: &SolverInitializer, defect_vertices: Seq<VertexIndex>) -> bool {
    &&& defect_vertices.len() <= MAX_MATCHING_VERTICES
    &&& forall|i: int|
        0 <= i < defect_vertices.len() ==> #[trigger] defect_vertices[i] < initializer.vertex_num
            && !initializer.virtual_vertices@.contains(defect_vertices[i])
    &&& forall|i: int, j: int|
        0 <= i < j < defect_vertices.len() ==> #[trigger] defect_vertices[i]
            != #[trigger] defect_vertices[j]
}

/// match the defects with a minimum-weight perfect matching over the complete graph: each
/// defect gets the defect it is paired with or the virtual vertex it is matched to
pub fn blossom_v_mwpm_reuse(
    complete_graph: &mut CompleteGraph,
    initializer: &SolverInitializer,
    defect_vertices: &Vec<VertexIndex>,
) -> (r: Vec<VertexIndex>)
    requires
        old(complete_graph).wf(),
        old(complete_graph).vertex_num == initializer.vertex_num,
        initializer.virtual_in_range(),
        defects_valid(initializer, defect_vertices@),
    ensures
        final(complete_graph).wf(),
        final(complete_graph).vertex_num == old(complete_graph).vertex_num,
        final(complete_graph).weighted_edges@ == old(complete_graph).weighted_edges@,
        final(complete_graph).edge_modifier == old(complete_graph).edge_modifier,
        final(complete_graph).vertices@.len() == old(complete_graph).vertices@.len(),
        forall|v: int|
            0 <= v < final(complete_graph).vertices@.len() ==> (#[trigger] final(complete_graph).vertices@[v]).edges == old(complete_graph).vertices@[v].edges,
        is_defect_matching(
            *old(complete_graph),
            Seq::new(
                initializer.vertex_num as nat,
                |v: int| initializer.virtual_vertices@.contains(v as VertexIndex),
            ),
            defect_vertices@,
            r@,
        ),
{
    broadcast use vstd::std_specs::btree::group_btree_axioms;

    let is_virtual = PrebuiltCompleteGraph::virtual_flags(initializer);
    let ghost virtual_seq = Seq::new(
        initializer.vertex_num as nat,
        |v: int| initializer.virtual_vertices@.contains(v as VertexIndex),
    );
    assert(is_virtual@ =~= virtual_seq);
    let ghost g = *old(complete_graph);
    let defect_num = defect_vertices.len();
    // the defect index of each vertex, or `usize::MAX` for a vertex that is not a defect
    let mut mapping: Vec<usize> = Vec::new();
    let mut v: usize = 0;
    while v < initializer.vertex_num
        invariant
            v <= initializer.vertex_num,
            mapping@.len() == v,
            forall|u: int| 0 <= u < v ==> #[trigger] mapping@[u] == usize::MAX,
        decreases initializer.vertex_num - v,
    {
        mapping.push(usize::MAX);
        v = v + 1;
    }
    let mut i: usize = 0;
    while i < defect_num
        invariant
            i <= defect_num,
            defect_num == defect_vertices@.len(),
            defects_valid(initializer, defect_vertices@),
            mapping@.len() == initializer.vertex_num,
            forall|u: int|
                0 <= u < initializer.vertex_num && #[trigger] mapping@[u] != usize::MAX ==> mapping@[u]
                    < defect_num && defect_vertices@[mapping@[u] as int] == u,
        decreases defect_num - i,
    {
        mapping.set(defect_vertices[i], i);
        i = i + 1;
    }
    // the paths from each defect and its nearest virtual vertex
    let mut all_paths: Vec<BTreeMap<VertexIndex, (VertexIndex, Weight)>> = Vec::new();
    let mut boundaries: Vec<Option<(VertexIndex, Weight)>> = Vec::new();
    let mut i: usize = 0;
    while i < defect_num
        invariant
            i <= defect_num,
            defect_num == defect_vertices@.len(),
            defects_valid(initializer, defect_vertices@),
            is_virtual@ == virtual_seq,
            virtual_seq == Seq::new(
                initializer.vertex_num as nat,
                |v: int| initializer.virtual_vertices@.contains(v as VertexIndex),
            ),
            is_virtual@.len() == initializer.vertex_num,
            complete_graph.wf(),
            g.wf(),
            complete_graph.vertex_num == g.vertex_num,
            g.vertex_num == initializer.vertex_num,
            complete_graph.weighted_edges@ == g.weighted_edges@,
            complete_graph.edge_modifier == g.edge_modifier,
            complete_graph.vertices@.len() == g.vertices@.len(),
            forall|u: int|
                0 <= u < complete_graph.vertices@.len() ==> (#[trigger] complete_graph.vertices@[u]).edges
                    == g.vertices@[u].edges,
            all_paths@.len() == i,
            boundaries@.len() == i,
            forall|x: int|
                0 <= x < i ==> {
                    &&& g.is_path_tree(defect_vertices@[x], #[trigger] all_paths@[x]@)
                    &&& forall|t: VertexIndex| #[trigger]
                        all_paths@[x]@.contains_key(t) ==> 0 <= all_paths@[x]@[t].1 <= MAX_VERTEX_NUM
                            * MAX_EDGE_WEIGHT
                },
            forall|x: int|
                0 <= x < i ==> match #[trigger] boundaries@[x] {
                    Some((b, w)) => {
                        &&& b < is_virtual@.len()
                        &&& is_virtual@[b as int]
                        &&& g.has_path(defect_vertices@[x], b, w as int)
                        &&& 0 <= w <= MAX_VERTEX_NUM * MAX_EDGE_WEIGHT
                    },
                    None => true,
                },
            forall|x: int| 0 <= x < i ==> nearest_boundary(g, is_virtual@, defect_vertices@[x], #[trigger] boundaries@[x]),
        decreases defect_num - i,
    {
        let ghost cg = *complete_graph;
        let paths = complete_graph.all_edges(defect_vertices[i]);
        let ghost d = defect_vertices@[i as int];
        proof {
            assert(d < initializer.vertex_num && !initializer.virtual_vertices@.contains(d));
            assert(virtual_seq[d as int] == initializer.virtual_vertices@.contains(d));
            assert(!is_virtual@[d as int]);
            assert(g.is_closed(d, paths@)) by {
                assert forall|t: VertexIndex, u: VertexIndex|
                    (t == d || paths@.contains_key(t)) && #[trigger] g.vertices@[t as int].edges@.contains_key(u)
                        implies u == d || paths@.contains_key(u) by {
                    if t == d {
                        assert(cg.vertices@[t as int].edges == g.vertices@[t as int].edges);
                    } else {
                        assert(g.is_path_tree(d, paths@));
                        assert(t < g.vertex_num);
                        assert(cg.vertices@[t as int].edges == g.vertices@[t as int].edges);
                    }
                    assert(cg.vertices@[t as int].edges@.contains_key(u));
                }
            }
            assert forall|t: VertexIndex| #[trigger] paths@.contains_key(t) implies g.paths_at_least(d, t, paths@[t].1 as int) by {
                g.lemma_paths_at_least_transfer(&cg, d, t, paths@[t].1 as int);
            }
        }
        let ghost rank = choose|rank: Map<VertexIndex, nat>| CompleteGraph::ranked(
            defect_vertices@[i as int],
            paths@,
            rank,
        );
        let mut boundary: Option<(VertexIndex, Weight)> = None;
        // the nearest virtual vertex, the one of lowest index among equally near ones
        let mut v: usize = 0;
        while v < is_virtual.len()
            invariant
                g.wf(),
                v <= is_virtual@.len(),
                i < defect_vertices@.len(),
                d == defect_vertices@[i as int],
                d < g.vertex_num,
                is_virtual@.len() == g.vertex_num,
                g.is_path_tree(d, paths@),
                CompleteGraph::ranked(d, paths@, rank),
                forall|t: VertexIndex| #[trigger]
                    paths@.contains_key(t) ==> 0 <= paths@[t].1 <= MAX_VERTEX_NUM * MAX_EDGE_WEIGHT,
                boundary matches Some((b, w)) ==> {
                    &&& b < is_virtual@.len()
                    &&& is_virtual@[b as int]
                    &&& g.has_path(d, b, w as int)
                    &&& 0 <= w <= MAX_VERTEX_NUM * MAX_EDGE_WEIGHT
                },
                forall|u: VertexIndex|
                    u < v && is_virtual@[u as int] && #[trigger] paths@.contains_key(u) ==> (boundary matches Some(
                        (b, w),
                    ) && w <= paths@[u].1),
            decreases is_virtual@.len() - v,
        {
            if is_virtual[v] {
                match paths.get(&v) {
                    Some(entry) => {
                        let weight = entry.1;
                        let closer = match boundary {
                            None => true,
                            Some((_, boundary_weight)) => weight < boundary_weight,
                        };
                        if closer {
                            proof {
                                g.lemma_tree_has_path(d, paths@, rank, v);
                            }
                            boundary = Some((v, weight));
                        }
                    },
                    None => {},
                }
            }
            v = v + 1;
        }
        proof {
            assert forall|path: Seq<(VertexIndex, Weight)>|
                #[trigger] g.is_weighted_path(d, path) && path.len() >= 1 && path.last().0 < is_virtual@.len()
                    && is_virtual@[path.last().0 as int] implies (boundary matches Some((b, w)) && w <= path_weight(path)) by {
                let last = path.last().0;
                g.lemma_closed_holds_path(d, paths@, path, path.len() - 1);
                assert(path[path.len() - 1].0 == last);
                assert(last != d);
                assert(paths@.contains_key(last));
                assert(g.paths_at_least(d, last, paths@[last].1 as int));
            }
        }
        all_paths.push(paths);
        boundaries.push(boundary);
        i = i + 1;
    }
    // the weight of each pair of defects, left out when no better than both boundaries
    let mut pair: Vec<Vec<Option<Weight>>> = Vec::new();
    let mut solo: Vec<Option<Weight>> = Vec::new();
    let mut i: usize = 0;
    while i < defect_num
        invariant
            i <= defect_num,
            defect_num == defect_vertices@.len(),
            defect_num <= MAX_MATCHING_VERTICES,
            defects_valid(initializer, defect_vertices@),
            is_virtual@.len() == initializer.vertex_num,
            g.wf(),
            g.vertex_num == initializer.vertex_num,
            mapping@.len() == initializer.vertex_num,
            forall|u: int|
                0 <= u < initializer.vertex_num && #[trigger] mapping@[u] != usize::MAX ==> mapping@[u]
                    < defect_num && defect_vertices@[mapping@[u] as int] == u,
            all_paths@.len() == defect_num,
            boundaries@.len() == defect_num,
            forall|x: int|
                0 <= x < defect_num ==> {
                    &&& g.is_path_tree(defect_vertices@[x], #[trigger] all_paths@[x]@)
                    &&& forall|t: VertexIndex| #[trigger]
                        all_paths@[x]@.contains_key(t) ==> 0 <= all_paths@[x]@[t].1 <= MAX_VERTEX_NUM
                            * MAX_EDGE_WEIGHT
                },
            forall|x: int|
                0 <= x < defect_num ==> match #[trigger] boundaries@[x] {
                    Some((b, w)) => {
                        &&& b < is_virtual@.len()
                        &&& is_virtual@[b as int]
                        &&& g.has_path(defect_vertices@[x], b, w as int)
                        &&& 0 <= w <= MAX_VERTEX_NUM * MAX_EDGE_WEIGHT
                    },
                    None => true,
                },
            pair@.len() == i,
            solo@.len() == i,
            forall|x: int|
                0 <= x < i ==> #[trigger] solo@[x] == match boundaries@[x] {
                    Some((_, w)) => Some(w),
                    None => None,
                },
            forall|x: int| 0 <= x < i ==> (#[trigger] pair@[x])@.len() == defect_num,
            forall|x: int, y: int|
                0 <= x < i && 0 <= y < defect_num ==> (#[trigger] pair@[x]@[y] matches Some(w) ==> {
                    &&& x < y
                    &&& g.has_path(defect_vertices@[x], defect_vertices@[y], w as int)
                    &&& !PrebuiltCompleteGraph::dominated_by_boundary(w, boundaries@[x], boundaries@[y])
                    &&& 0 <= w <= MAX_VERTEX_NUM * MAX_EDGE_WEIGHT
                }),
        decreases defect_num - i,
    {
        let mut row: Vec<Option<Weight>> = Vec::new();
        let mut j: usize = 0;
        while j < defect_num
            invariant
                j <= defect_num,
                row@.len() == j,
                forall|y: int| 0 <= y < j ==> #[trigger] row@[y] is None,
            decreases defect_num - j,
        {
            row.push(None);
            j = j + 1;
        }
        let paths = &all_paths[i];
        let ghost rank = choose|rank: Map<VertexIndex, nat>| CompleteGraph::ranked(
            defect_vertices@[i as int],
            paths@,
            rank,
        );
        proof {
            assert(g.is_path_tree(defect_vertices@[i as int], all_paths@[i as int]@));
        }
        for kv in it: paths.iter()
            invariant
                g.wf(),
                i < defect_num,
                defect_num == defect_vertices@.len(),
                defects_valid(initializer, defect_vertices@),
                g.vertex_num == initializer.vertex_num,
                is_virtual@.len() == initializer.vertex_num,
                defect_vertices@[i as int] < g.vertex_num,
                g.is_path_tree(defect_vertices@[i as int], paths@),
                CompleteGraph::ranked(defect_vertices@[i as int], paths@, rank),
                forall|t: VertexIndex| #[trigger]
                    paths@.contains_key(t) ==> 0 <= paths@[t].1 <= MAX_VERTEX_NUM * MAX_EDGE_WEIGHT,
                mapping@.len() == initializer.vertex_num,
                forall|u: int|
                    0 <= u < initializer.vertex_num && #[trigger] mapping@[u] != usize::MAX
                        ==> mapping@[u] < defect_num && defect_vertices@[mapping@[u] as int] == u,
                boundaries@.len() == defect_num,
                forall|x: int|
                    0 <= x < defect_num ==> match #[trigger] boundaries@[x] {
                        Some((b, w)) => 0 <= w <= MAX_VERTEX_NUM * MAX_EDGE_WEIGHT,
                        None => true,
                    },
                row@.len() == defect_num,
                forall|y: int|
                    0 <= y < defect_num ==> (#[trigger] row@[y] matches Some(w) ==> {
                        &&& i < y
                        &&& g.has_path(defect_vertices@[i as int], defect_vertices@[y], w as int)
                        &&& !PrebuiltCompleteGraph::dominated_by_boundary(
                            w,
                            boundaries@[i as int],
                            boundaries@[y],
                        )
                        &&& 0 <= w <= MAX_VERTEX_NUM * MAX_EDGE_WEIGHT
                    }),
        {
            let peer = *kv.0;
            let weight = (kv.1).1;
            proof {
                assert(paths@.contains_key(peer));
                assert(paths@[peer].1 == weight);
                assert(peer < g.vertex_num);
            }
            let j = mapping[peer];
            if j != usize::MAX && i < j {
                let dominated = match (boundaries[i], boundaries[j]) {
                    (Some((_, boundary_weight)), Some((_, boundary_weight_peer))) => weight
                        > boundary_weight + boundary_weight_peer,
                    _ => false,
                };
                if !dominated {
                    proof {
                        g.lemma_tree_has_path(defect_vertices@[i as int], paths@, rank, peer);
                    }
                    row.set(j, Some(weight));
                }
            }
        }
        let s = match boundaries[i] {
            Some((_, w)) => Some(w),
            None => None,
        };
        pair.push(row);
        solo.push(s);
        i = i + 1;
    }
    let problem = MatchingProblem { n: defect_num, pair, solo };
    proof {
        assert(defect_weights_valid(g, virtual_seq, defect_vertices@, boundaries@, problem));
    }
    let peers = problem.minimum_weight_matching();
    let mut result: Vec<VertexIndex> = Vec::new();
    match peers {
        None => {},
        Some(peer) => {
            let mut i: usize = 0;
            while i < defect_num
                invariant
                    i <= defect_num,
                    defect_num == defect_vertices@.len(),
                    problem.n == defect_num,
                    boundaries@.len() == defect_num,
                    problem.is_perfect_matching(peer@),
                    forall|x: int|
                        0 <= x < defect_num ==> match #[trigger] boundaries@[x] {
                            Some((b, w)) => problem.solo@[x] == Some(w),
                            None => problem.solo@[x] is None,
                        },
                    result@.len() == i,
                    forall|x: int|
                        0 <= x < i ==> #[trigger] result@[x] == match peer@[x] {
                            Some(j) => defect_vertices@[j as int],
                            None => boundaries@[x]->Some_0.0,
                        },
                decreases defect_num - i,
            {
                let matched = match peer[i] {
                    Some(j) => defect_vertices[j],
                    None => match boundaries[i] {
                        Some((b, _)) => b,
                        None => 0,
                    },
                };
                proof {
                    if peer@[i as int] is None {
                        assert(problem.solo@[i as int] is Some);
                    }
                }
                result.push(matched);
                i = i + 1;
            }
            proof {
                assert(matching_result(defect_vertices@, boundaries@, peer@, result@));
            }
        },
    }
    result
}


/// the edge weights are small enough for every path weight to fit
pub open spec fn weights_safe(initializer: &SolverInitializer) -> bool {
    &&& initializer.vertex_num > 1
    &&& forall|e: int|
        0 <= e < initializer.weighted_edges@.len() ==> (#[trigger] initializer.weighted_edges@[e]).2
            <= (i32::MAX as int) / (initializer.vertex_num as int)
}

/// minimum-weight perfect matching of the defects of a decoding graph: each defect gets the
/// defect it is paired with or the virtual vertex it is matched to
pub fn blossom_v_mwpm(initializer: &SolverInitializer, defect_vertices: &Vec<VertexIndex>) -> (r: Vec<
    VertexIndex,
>)
    requires
        weights_safe(initializer),
        initializer_fits(initializer),
        defects_valid(initializer, defect_vertices@),
    ensures
        exists|graph: CompleteGraph| #[trigger]
            graph.built_from(initializer.weighted_edges@) && graph.wf() && graph.vertex_num
                == initializer.vertex_num && is_defect_matching(
                graph,
                Seq::new(
                    initializer.vertex_num as nat,
                    |v: int| initializer.virtual_vertices@.contains(v as VertexIndex),
                ),
                defect_vertices@,
                r@,
            ),
{
    let mut complete_graph = CompleteGraph::new(initializer.vertex_num, &initializer.weighted_edges);
    let ghost graph = complete_graph;
    let r = blossom_v_mwpm_reuse(&mut complete_graph, initializer, defect_vertices);
    assert(graph.built_from(initializer.weighted_edges@));
    r
}

/// one matched pair with the path between them
#[derive(Debug, Clone)]
pub struct DetailedMatching {
    /// must be a real vertex
    pub a: DefectIndex,
    /// might be a virtual vertex, but if it's a real vertex, then b > a stands
    pub b: DefectIndex,
    /// every vertex in between this pair, in the order `a -> path[0].0 -> path[1].0 -> .... ->
    /// path[-1].0` and it's guaranteed that path[-1].0 = b; each with the weight of the edge
    /// into it
    pub path: Vec<(DefectIndex, Weight)>,
    /// the overall weight of this path
    pub weight: Weight,
}

/// the match of defect `i` is reported: it is matched to a vertex that is not a defect, or to a
/// higher defect
pub open spec fn is_reported(defect_vertices: Seq<DefectIndex>, mwpm_result: Seq<DefectIndex>, i: int) -> bool {
    !defect_vertices.contains(mwpm_result[i]) || defect_vertices[i] < mwpm_result[i]
}

/// `d` is the reported match of some defect
pub open spec fn is_reported_pair(
    defect_vertices: Seq<DefectIndex>,
    mwpm_result: Seq<DefectIndex>,
    d: DetailedMatching,
) -> bool {
    exists|i: int|
        0 <= i < defect_vertices.len() && #[trigger] is_reported(defect_vertices, mwpm_result, i)
            && d.a == defect_vertices[i] && d.b == mwpm_result[i]
}

/// compute detailed matching information, note that the output will not include duplicated
/// matched pairs
pub fn detailed_matching(
    initializer: &SolverInitializer,
    defect_vertices: &Vec<DefectIndex>,
    mwpm_result: &Vec<DefectIndex>,
) -> (r: Vec<DetailedMatching>)
    requires
        initializer_fits(initializer),
        forall|i: int|
            0 <= i < defect_vertices@.len() ==> #[trigger] defect_vertices@[i]
                < initializer.vertex_num,
        forall|i: int, j: int|
            0 <= i < j < defect_vertices@.len() ==> #[trigger] defect_vertices@[i]
                != #[trigger] defect_vertices@[j],
        mwpm_result@.len() == defect_vertices@.len(),
        forall|i: int|
            0 <= i < mwpm_result@.len() ==> #[trigger] mwpm_result@[i] < initializer.vertex_num,
        forall|i: int|
            0 <= i < mwpm_result@.len() && #[trigger] is_reported(defect_vertices@, mwpm_result@, i)
                ==> defect_vertices@[i] != mwpm_result@[i] && graph_reachable(
                initializer.weighted_edges@,
                defect_vertices@[i],
                mwpm_result@[i],
            ),
    ensures
        forall|k: int|
            0 <= k < r@.len() ==> is_reported_pair(defect_vertices@, mwpm_result@, #[trigger] r@[k]),
        forall|i: int|
            0 <= i < defect_vertices@.len() && #[trigger] is_reported(
                defect_vertices@,
                mwpm_result@,
                i,
            ) ==> exists|k: int|
                0 <= k < r@.len() && (#[trigger] r@[k]).a == defect_vertices@[i] && r@[k].b
                    == mwpm_result@[i],
        forall|k: int| 0 <= k < r@.len() ==> detail_ok(initializer.weighted_edges@, #[trigger] r@[k]),
{
    let defect_num = defect_vertices.len();
    let mut is_defect: Vec<bool> = Vec::new();
    let mut v: usize = 0;
    while v < initializer.vertex_num
        invariant
            v <= initializer.vertex_num,
            is_defect@.len() == v,
            forall|u: int| 0 <= u < v ==> !#[trigger] is_defect@[u],
        decreases initializer.vertex_num - v,
    {
        is_defect.push(false);
        v = v + 1;
    }
    let mut i: usize = 0;
    while i < defect_num
        invariant
            i <= defect_num,
            defect_num == defect_vertices@.len(),
            is_defect@.len() == initializer.vertex_num,
            forall|x: int|
                0 <= x < defect_vertices@.len() ==> #[trigger] defect_vertices@[x]
                    < initializer.vertex_num,
            forall|u: int|
                0 <= u < initializer.vertex_num ==> #[trigger] is_defect@[u]
                    == defect_vertices@.subrange(0, i as int).contains(u as DefectIndex),
        decreases defect_num - i,
    {
        is_defect.set(defect_vertices[i], true);
        proof {
            let sub_next = defect_vertices@.subrange(0, i + 1);
            let sub = defect_vertices@.subrange(0, i as int);
            assert(sub_next =~= sub.push(defect_vertices@[i as int]));
            assert forall|u: int| 0 <= u < initializer.vertex_num implies #[trigger] is_defect@[u]
                == sub_next.contains(u as DefectIndex) by {
                if u == defect_vertices@[i as int] {
                    assert(sub_next[i as int] == u);
                } else {
                    if sub_next.contains(u as DefectIndex) {
                        let j = choose|j: int| 0 <= j < sub_next.len() && sub_next[j] == u as DefectIndex;
                        assert(sub[j] == u as DefectIndex);
                    }
                    if sub.contains(u as DefectIndex) {
                        let j = choose|j: int| 0 <= j < sub.len() && sub[j] == u as DefectIndex;
                        assert(sub_next[j] == u as DefectIndex);
                    }
                }
            }
        }
        i = i + 1;
    }
    assert(defect_vertices@.subrange(0, defect_num as int) =~= defect_vertices@);
    let mut complete_graph = CompleteGraph::new(initializer.vertex_num, &initializer.weighted_edges);
    let mut details: Vec<DetailedMatching> = Vec::new();
    let ghost mut origin: Seq<int> = Seq::empty();
    let ghost mut slot: Seq<int> = Seq::empty();
    let mut i: usize = 0;
    while i < defect_num
        invariant
            i <= defect_num,
            defect_num == defect_vertices@.len(),
            mwpm_result@.len() == defect_num,
            initializer_fits(initializer),
            is_defect@.len() == initializer.vertex_num,
            forall|u: int|
                0 <= u < initializer.vertex_num ==> #[trigger] is_defect@[u]
                    == defect_vertices@.contains(u as DefectIndex),
            forall|x: int|
                0 <= x < defect_vertices@.len() ==> #[trigger] defect_vertices@[x]
                    < initializer.vertex_num,
            forall|x: int|
                0 <= x < mwpm_result@.len() ==> #[trigger] mwpm_result@[x] < initializer.vertex_num,
            forall|x: int|
                0 <= x < mwpm_result@.len() && #[trigger] is_reported(defect_vertices@, mwpm_result@, x)
                    ==> defect_vertices@[x] != mwpm_result@[x] && graph_reachable(
                    initializer.weighted_edges@,
                    defect_vertices@[x],
                    mwpm_result@[x],
                ),
            complete_graph.wf(),
            complete_graph.vertex_num == initializer.vertex_num,
            complete_graph.built_from(initializer.weighted_edges@),
            origin.len() == details@.len(),
            slot.len() == i,
            forall|k: int|
                0 <= k < details@.len() ==> {
                    &&& 0 <= #[trigger] origin[k] < i
                    &&& is_reported(defect_vertices@, mwpm_result@, origin[k])
                    &&& details@[k].a == defect_vertices@[origin[k]]
                    &&& details@[k].b == mwpm_result@[origin[k]]
                    &&& detail_ok(initializer.weighted_edges@, details@[k])
                },
            forall|x: int|
                0 <= x < i && is_reported(defect_vertices@, mwpm_result@, x) ==> {
                    &&& 0 <= #[trigger] slot[x] < details@.len()
                    &&& details@[slot[x]].a == defect_vertices@[x]
                    &&& details@[slot[x]].b == mwpm_result@[x]
                },
        decreases defect_num - i,
    {
        let a = defect_vertices[i];
        let b = mwpm_result[i];
        if !is_defect[b] || a < b {
            proof {
                assert(is_reported(defect_vertices@, mwpm_result@, i as int));
                let w = choose|w: int| graph_has_path(initializer.weighted_edges@, a, b, w);
                complete_graph.lemma_skeleton_path_reachable(initializer.weighted_edges@, a, b, w);
            }
            let ghost before = complete_graph;
            let (path, weight) = complete_graph.get_path(a, b);
            proof {
                before.lemma_weighted_path_in_skeleton(initializer.weighted_edges@, a, path@);
                assert forall|v: int| 0 <= v < complete_graph.vertex_num implies #[trigger] complete_graph.vertices@[v].edges@
                    == complete_graph::adjacency_of(initializer.weighted_edges@, v as VertexIndex) by {
                    assert(complete_graph.vertices@[v].edges == before.vertices@[v].edges);
                }
            }
            let detail = DetailedMatching { a, b, path, weight };
            proof {
                assert(detail_ok(initializer.weighted_edges@, detail));
                slot = slot.push(details@.len() as int);
                origin = origin.push(i as int);
            }
            details.push(detail);
        } else {
            proof {
                assert(!is_reported(defect_vertices@, mwpm_result@, i as int));
                slot = slot.push(0);
            }
        }
        i = i + 1;
    }
    proof {
        assert forall|k: int| 0 <= k < details@.len() implies detail_ok(
            initializer.weighted_edges@,
            #[trigger] details@[k],
        ) by {
            assert(0 <= origin[k] < defect_num);
        }
        assert forall|k: int| 0 <= k < details@.len() implies is_reported_pair(
            defect_vertices@,
            mwpm_result@,
            #[trigger] details@[k],
        ) by {
            let x = origin[k];
            assert(0 <= x < defect_vertices@.len() && is_reported(defect_vertices@, mwpm_result@, x)
                && details@[k].a == defect_vertices@[x] && details@[k].b == mwpm_result@[x]);
        }
        assert forall|x: int|
            0 <= x < defect_vertices@.len() && #[trigger] is_reported(
                defect_vertices@,
                mwpm_result@,
                x,
            ) implies exists|k: int|
            0 <= k < details@.len() && (#[trigger] details@[k]).a == defect_vertices@[x]
                && details@[k].b == mwpm_result@[x] by {
            let k = slot[x];
        }
    }
    details
}

/// the path of a matched pair leads from `a` to `b` over edges of the graph and weighs `weight`
pub open spec fn detail_ok(edges: Seq<(VertexIndex, VertexIndex, Weight)>, d: DetailedMatching) -> bool {
    &&& d.path@.len() >= 1
    &&& d.path@.last().0 == d.b
    &&& forall|j: int|
        0 <= j < d.path@.len() ==> #[trigger] complete_graph::graph_path_step(edges, d.a, d.path@, j)
    &&& complete_graph::path_weight(d.path@) == d.weight
}

} // verus!
