//! Exact minimum-weight perfect matching of a small graph.
//!
//! Each vertex is matched either to another vertex over an edge of the graph, or alone to the
//! boundary where it has a boundary weight. The optimum is defined by choosing the partner of
//! the lowest unmatched vertex in every possible way; it is computed by dynamic programming over
//! the sets of unmatched vertices, each set held as the bits of a `u64`.

use crate::util::Weight;
use std::collections::BTreeMap;
use vstd::prelude::*;
use vstd::set_lib::{lemma_int_range, set_int_range};

verus! {

/// the largest weight of a single edge or boundary
pub const MAX_MATCHING_WEIGHT: Weight = 0x100_0000_0000_0000;

/// the largest number of vertices
pub const MAX_MATCHING_VERTICES: usize = 63;

/// the sum of two optional weights, `None` if either is missing
pub open spec fn opt_add(a: Option<int>, b: Option<int>) -> Option<int> {
    match (a, b) {
        (Some(x), Some(y)) => Some(x + y),
        _ => None,
    }
}

/// the smaller of two optional weights, a missing one never being smaller
pub open spec fn opt_min(a: Option<int>, b: Option<int>) -> Option<int> {
    match (a, b) {
        (Some(x), Some(y)) => Some(
            if x <= y {
                x
            } else {
                y
            },
        ),
        (Some(x), None) => Some(x),
        (None, y) => y,
    }
}

/// an optional machine weight as an optional integer
pub open spec fn opt_int(a: Option<Weight>) -> Option<int> {
    match a {
        Some(x) => Some(x as int),
        None => None,
    }
}

/// the lowest member of `s` at or above `k`, or 64 when there is none below 64
pub open spec fn lowest_from(s: Set<int>, k: int) -> int
    decreases 64 - k,
{
    if k >= 64 {
        64
    } else if s.contains(k) {
        k
    } else {
        lowest_from(s, k + 1)
    }
}

/// the least weight of a perfect matching of the vertices in `s`: its lowest vertex `i` goes to
/// the boundary with weight `solo(i)` or is paired with a higher vertex `k` with weight
/// `pair(i, k)`, and the rest is matched in the best way; `None` when no perfect matching exists
pub open spec fn best_matching(
    pair: spec_fn(int, int) -> Option<int>,
    solo: spec_fn(int) -> Option<int>,
    s: Set<int>,
) -> Option<int>
    decreases s.len(), 0int, 0int,
    when s.finite()
{
    if s.len() == 0 {
        Some(0)
    } else {
        let i = lowest_from(s, 0);
        if !s.contains(i) {
            None
        } else {
            let rest = s.remove(i);
            opt_min(
                opt_add(solo(i), best_matching(pair, solo, rest)),
                best_pairing(pair, solo, i, rest, 64),
            )
        }
    }
}

/// the least weight of pairing `i` with one of the vertices below `j` in `rest` and matching
/// the others of `rest` in the best way
pub open spec fn best_pairing(
    pair: spec_fn(int, int) -> Option<int>,
    solo: spec_fn(int) -> Option<int>,
    i: int,
    rest: Set<int>,
    j: int,
) -> Option<int>
    decreases rest.len(), 1int, j,
    when rest.finite()
{
    if j <= 0 {
        None
    } else {
        let k = j - 1;
        opt_min(
            best_pairing(pair, solo, i, rest, k),
            if rest.contains(k) {
                opt_add(pair(i, k), best_matching(pair, solo, rest.remove(k)))
            } else {
                None
            },
        )
    }
}

/// bit `i` of `mask` is set
pub open spec fn has_bit(mask: u64, i: u64) -> bool {
    (mask >> i) & 1u64 == 1u64
}

/// the vertices whose bits are set in `mask`
pub open spec fn mask_set(mask: u64) -> Set<int> {
    Set::new(|i: int| 0 <= i < 64 && has_bit(mask, i as u64))
}

/// clearing bit `i` removes vertex `i` from the set and makes the mask smaller
pub proof fn lemma_clear_bit(mask: u64, i: u64)
    requires
        i < 64,
        has_bit(mask, i),
    ensures
        mask_set(mask & !(1u64 << i)) == mask_set(mask).remove(i as int),
        mask & !(1u64 << i) < mask,
{
    assert(mask & !(1u64 << i) < mask) by (bit_vector)
        requires
            i < 64,
            (mask >> i) & 1u64 == 1u64,
    ;
    assert forall|j: int| 0 <= j < 64 implies #[trigger] has_bit(mask & !(1u64 << i), j as u64)
        == (has_bit(mask, j as u64) && j != i) by {
        let jj = j as u64;
        assert(((mask & !(1u64 << i)) >> jj) & 1u64 == 1u64 <==> ((mask >> jj) & 1u64 == 1u64
            && jj != i)) by (bit_vector)
            requires
                i < 64,
                jj < 64,
        ;
    }
    assert(mask_set(mask & !(1u64 << i)) =~= mask_set(mask).remove(i as int));
}

/// the bits of a mask below `n` form a finite set of at most 64 vertices
pub proof fn lemma_mask_set_finite(mask: u64)
    ensures
        mask_set(mask).finite(),
        mask_set(mask).subset_of(set_int_range(0, 64)),
        mask_set(mask).len() <= 64,
{
    lemma_int_range(0, 64);
    assert(mask_set(mask).subset_of(set_int_range(0, 64)));
    vstd::set_lib::lemma_len_subset(mask_set(mask), set_int_range(0, 64));
}

/// the empty mask holds no vertex, and a mask holding no vertex is empty
pub proof fn lemma_mask_empty(mask: u64)
    ensures
        (mask == 0) <==> mask_set(mask).len() == 0,
{
    lemma_mask_set_finite(mask);
    if mask == 0 {
        assert forall|j: int| 0 <= j < 64 implies !#[trigger] has_bit(mask, j as u64) by {
            let jj = j as u64;
            assert((0u64 >> jj) & 1u64 != 1u64) by (bit_vector);
        }
        assert(mask_set(mask) =~= Set::<int>::empty());
    } else {
        assert(mask >> 0u64 != 0) by (bit_vector)
            requires
                mask != 0,
        ;
        let i = lemma_find_bit(mask, 0);
        assert(mask_set(mask).contains(i as int));
    }
}

/// a mask with a bit at or above `k` has a lowest such bit
pub proof fn lemma_find_bit(mask: u64, k: u64) -> (i: u64)
    requires
        k < 64,
        mask >> k != 0,
    ensures
        k <= i < 64,
        has_bit(mask, i),
        forall|j: u64| k <= j < i ==> !#[trigger] has_bit(mask, j),
    decreases 64 - k,
{
    if has_bit(mask, k) {
        k
    } else {
        let k1: u64 = (k + 1) as u64;
        assert(k < 63 && mask >> k1 != 0) by (bit_vector)
            requires
                k < 64,
                k1 == k + 1,
                mask >> k != 0,
                (mask >> k) & 1u64 != 1u64,
        ;
        lemma_find_bit(mask, k1)
    }
}

/// no member below `i` and `i` a member: `i` is the lowest member at or above `k`
pub proof fn lemma_lowest_from(s: Set<int>, k: int, i: int)
    requires
        0 <= k <= i < 64,
        s.contains(i),
        forall|j: int| k <= j < i ==> !s.contains(j),
    ensures
        lowest_from(s, k) == i,
    decreases i - k,
{
    if k < i {
        lemma_lowest_from(s, k + 1, i);
    }
}


/// the sum of a sequence of integers
pub open spec fn seq_sum(s: Seq<int>) -> int
    decreases s.len(),
{
    if s.len() == 0 {
        0
    } else {
        seq_sum(s.drop_last()) + s.last()
    }
}

/// changing one entry changes the sum by the difference
pub proof fn lemma_seq_sum_update(s: Seq<int>, i: int, x: int)
    requires
        0 <= i < s.len(),
    ensures
        seq_sum(s.update(i, x)) == seq_sum(s) - s[i] + x,
    decreases s.len(),
{
    let t = s.update(i, x);
    if i == s.len() - 1 {
        assert(t.drop_last() =~= s.drop_last());
    } else {
        assert(t.drop_last() =~= s.drop_last().update(i, x));
        lemma_seq_sum_update(s.drop_last(), i, x);
    }
}

/// the best pairing below `j`, when there is one, is attained by some partner below `j`
pub proof fn lemma_best_pairing_attained(
    pair: spec_fn(int, int) -> Option<int>,
    solo: spec_fn(int) -> Option<int>,
    i: int,
    rest: Set<int>,
    j: int,
)
    requires
        rest.finite(),
        best_pairing(pair, solo, i, rest, j) is Some,
    ensures
        exists|k: int|
            0 <= k < j && rest.contains(k) && #[trigger] opt_add(
                pair(i, k),
                best_matching(pair, solo, rest.remove(k)),
            ) == best_pairing(pair, solo, i, rest, j),
    decreases j,
{
    if j > 0 {
        let k = j - 1;
        let here = if rest.contains(k) {
            opt_add(pair(i, k), best_matching(pair, solo, rest.remove(k)))
        } else {
            None
        };
        if best_pairing(pair, solo, i, rest, j) == here && here is Some {
            assert(rest.contains(k));
        } else {
            lemma_best_pairing_attained(pair, solo, i, rest, k);
        }
    }
}

/// a matching problem on `n` vertices: `pair[i][k]` is the weight of pairing `i` with a higher
/// vertex `k`, `solo[i]` the weight of matching `i` to the boundary; `None` when not allowed
#[derive(Debug)]
pub struct MatchingProblem {
    pub n: usize,
    pub pair: Vec<Vec<Option<Weight>>>,
    pub solo: Vec<Option<Weight>>,
}

impl MatchingProblem {
    pub open spec fn wf(&self) -> bool {
        &&& self.n <= MAX_MATCHING_VERTICES
        &&& self.pair@.len() == self.n
        &&& self.solo@.len() == self.n
        &&& forall|i: int| 0 <= i < self.n ==> (#[trigger] self.pair@[i])@.len() == self.n
        &&& forall|i: int, k: int|
            0 <= i < self.n && 0 <= k < self.n ==> (#[trigger] self.pair@[i]@[k] matches Some(w)
                ==> 0 <= w <= MAX_MATCHING_WEIGHT)
        &&& forall|i: int|
            0 <= i < self.n ==> (#[trigger] self.solo@[i] matches Some(w) ==> 0 <= w
                <= MAX_MATCHING_WEIGHT)
    }

    /// the pair weights as a function
    pub open spec fn pair_fn(&self) -> spec_fn(int, int) -> Option<int> {
        |i: int, k: int|
            if 0 <= i < self.n && 0 <= k < self.n {
                opt_int(self.pair@[i]@[k])
            } else {
                None
            }
    }

    /// the boundary weights as a function
    pub open spec fn solo_fn(&self) -> spec_fn(int) -> Option<int> {
        |i: int|
            if 0 <= i < self.n {
                opt_int(self.solo@[i])
            } else {
                None
            }
    }

    /// the least weight of a perfect matching of the vertices in `s`
    pub open spec fn best(&self, s: Set<int>) -> Option<int> {
        best_matching(self.pair_fn(), self.solo_fn(), s)
    }

    /// every remembered mask holds vertices of the problem and maps to its best matching weight
    pub open spec fn memo_ok(&self, memo: Map<u64, Option<Weight>>) -> bool {
        forall|m: u64| #[trigger]
            memo.contains_key(m) ==> opt_int(memo[m]) == self.best(mask_set(m)) && (memo[m] matches Some(
                v,
            ) ==> 0 <= v <= mask_set(m).len() * 0x100_0000_0000_0000)
    }

    /// the lowest set bit of a nonzero mask
    fn lowest_bit(mask: u64) -> (i: u64)
        requires
            mask != 0,
        ensures
            i < 64,
            has_bit(mask, i),
            lowest_from(mask_set(mask), 0) == i,
            forall|j: u64| j < i ==> !#[trigger] has_bit(mask, j),
    {
        assert(mask >> 0u64 != 0) by (bit_vector)
            requires
                mask != 0,
        ;
        let mut i: u64 = 0;
        while (mask >> i) & 1 != 1
            invariant
                i < 64,
                mask >> i != 0,
                forall|j: u64| j < i ==> !#[trigger] has_bit(mask, j),
            decreases 64 - i,
        {
            let i1: u64 = i + 1;
            assert(i < 63 && mask >> i1 != 0) by (bit_vector)
                requires
                    i < 64,
                    i1 == i + 1,
                    mask >> i != 0,
                    (mask >> i) & 1u64 != 1u64,
            ;
            i = i1;
        }
        proof {
            assert forall|j: int| 0 <= j < i implies !mask_set(mask).contains(j) by {
                assert(!has_bit(mask, j as u64));
            }
            lemma_lowest_from(mask_set(mask), 0, i as int);
        }
        i
    }

    /// the least weight of a perfect matching of the vertices in `mask`, remembering it in `memo`
    fn solve(&self, mask: u64, memo: &mut BTreeMap<u64, Option<Weight>>) -> (r: Option<Weight>)
        requires
            self.wf(),
            mask_set(mask).subset_of(set_int_range(0, self.n as int)),
            self.memo_ok(old(memo)@),
        ensures
            self.memo_ok(final(memo)@),
            opt_int(r) == self.best(mask_set(mask)),
            r matches Some(v) ==> 0 <= v <= mask_set(mask).len() * 0x100_0000_0000_0000,
        decreases mask,
    {
        broadcast use vstd::std_specs::btree::group_btree_axioms;

        proof {
            lemma_mask_set_finite(mask);
            lemma_mask_empty(mask);
        }
        if mask == 0 {
            return Some(0);
        }
        match memo.get(&mask) {
            Some(v) => {
                return *v;
            },
            None => {},
        }
        let i = Self::lowest_bit(mask);
        let rest = mask & !(1u64 << i);
        proof {
            lemma_clear_bit(mask, i);
            lemma_mask_set_finite(rest);
        }
        let ghost s = mask_set(mask);
        let ghost rs = mask_set(rest);
        assert(rs.len() == s.len() - 1);
        let solo_option: Option<Weight> = match self.solo[i as usize] {
            Some(b) => match self.solve(rest, memo) {
                Some(v) => Some(b + v),
                None => None,
            },
            None => None,
        };
        let mut acc: Option<Weight> = None;
        let mut k: u64 = 0;
        while k < 64
            invariant
                self.wf(),
                i < 64,
                has_bit(mask, i),
                s == mask_set(mask),
                rs == mask_set(rest),
                rs == s.remove(i as int),
                rs.finite(),
                s.finite(),
                rs.len() == s.len() - 1,
                s.subset_of(set_int_range(0, self.n as int)),
                rest < mask,
                k <= 64,
                self.memo_ok(memo@),
                opt_int(acc) == best_pairing(self.pair_fn(), self.solo_fn(), i as int, rs, k as int),
                acc matches Some(v) ==> 0 <= v <= s.len() * 0x100_0000_0000_0000,
            decreases 64 - k,
        {
            if (rest >> k) & 1 == 1 {
                let rest_k = rest & !(1u64 << k);
                proof {
                    lemma_clear_bit(rest, k);
                    lemma_mask_set_finite(rest_k);
                    assert(rs.contains(k as int));
                }
                let candidate: Option<Weight> = match self.pair[i as usize][k as usize] {
                    Some(w) => match self.solve(rest_k, memo) {
                        Some(v) => Some(w + v),
                        None => None,
                    },
                    None => None,
                };
                acc = match (acc, candidate) {
                    (Some(x), Some(y)) => Some(
                        if x <= y {
                            x
                        } else {
                            y
                        },
                    ),
                    (Some(x), None) => Some(x),
                    (None, y) => y,
                };
            } else {
                proof {
                    assert(!rs.contains(k as int));
                }
            }
            k = k + 1;
        }
        let result: Option<Weight> = match (solo_option, acc) {
            (Some(x), Some(y)) => Some(
                if x <= y {
                    x
                } else {
                    y
                },
            ),
            (Some(x), None) => Some(x),
            (None, y) => y,
        };
        memo.insert(mask, result);
        result
    }
}


/// the mask of the first `n` vertices holds exactly them
pub proof fn lemma_full_mask(n: u64)
    requires
        n < 64,
    ensures
        mask_set(((1u64 << n) - 1) as u64) == set_int_range(0, n as int),
{
    let full: u64 = ((1u64 << n) - 1) as u64;
    assert forall|j: int| 0 <= j < 64 implies #[trigger] has_bit(full, j as u64) == (j < n) by {
        let jj = j as u64;
        assert(((((1u64 << n) - 1) as u64 >> jj) & 1u64 == 1u64) == (jj < n)) by (bit_vector)
            requires
                n < 64,
                jj < 64,
        ;
    }
    assert(mask_set(full) =~= set_int_range(0, n as int));
}

impl MatchingProblem {
    /// `peer` matches every vertex: to the boundary (`None`) where it has a boundary weight, or to
    /// another vertex that is matched back, over an allowed pair
    pub open spec fn is_perfect_matching(&self, peer: Seq<Option<usize>>) -> bool {
        &&& peer.len() == self.n
        &&& forall|v: int|
            0 <= v < self.n ==> match #[trigger] peer[v] {
                None => self.solo@[v] is Some,
                Some(u) => {
                    &&& u < self.n
                    &&& u != v
                    &&& peer[u as int] == Some(v as usize)
                    &&& (v < u ==> self.pair@[v]@[u as int] is Some)
                },
            }
    }

    /// the weight vertex `v` adds to a matching: its boundary weight, or the weight of its pair
    /// counted at the lower vertex
    pub open spec fn contribution(&self, peer: Seq<Option<usize>>, v: int) -> int {
        match peer[v] {
            None => match self.solo@[v] {
                Some(w) => w as int,
                None => 0,
            },
            Some(u) => if v < u {
                match self.pair@[v]@[u as int] {
                    Some(w) => w as int,
                    None => 0,
                }
            } else {
                0
            },
        }
    }

    /// the total weight of a matching
    pub open spec fn matching_weight(&self, peer: Seq<Option<usize>>) -> int {
        seq_sum(Seq::new(self.n as nat, |v: int| self.contribution(peer, v)))
    }

    /// a minimum-weight perfect matching, `None` when there is no perfect matching; `r[i]` is the
    /// vertex matched with `i`, or `None` when `i` is matched to the boundary
    pub fn minimum_weight_matching(&self) -> (r: Option<Vec<Option<usize>>>)
        requires
            self.wf(),
        ensures
            r is None <==> self.best(set_int_range(0, self.n as int)) is None,
            r matches Some(peer) ==> self.is_perfect_matching(peer@) && Some(
                self.matching_weight(peer@),
            ) == self.best(set_int_range(0, self.n as int)),
    {
        broadcast use vstd::std_specs::btree::group_btree_axioms;

        let n = self.n;
        let nn: u64 = n as u64;
        assert(1u64 << nn >= 1) by (bit_vector)
            requires
                nn < 64,
        ;
        let full: u64 = ((1u64 << nn) - 1) as u64;
        proof {
            lemma_full_mask(n as u64);
            lemma_int_range(0, n as int);
        }
        let mut memo: BTreeMap<u64, Option<Weight>> = BTreeMap::new();
        let total = self.solve(full, &mut memo);
        if total.is_none() {
            return None;
        }
        let mut peer: Vec<Option<usize>> = Vec::new();
        let mut v: usize = 0;
        while v < n
            invariant
                v <= n,
                peer@.len() == v,
                forall|u: int| 0 <= u < v ==> #[trigger] peer@[u] is None,
            decreases n - v,
        {
            peer.push(None);
            v = v + 1;
        }
        let ghost mut shares: Seq<int> = Seq::new(n as nat, |u: int| 0int);
        let ghost best_full = self.best(mask_set(full))->Some_0;
        proof {
            assert(seq_sum(shares) == 0) by {
                lemma_seq_sum_zero(n as nat);
            }
        }
        let mut mask = full;
        while mask != 0
            invariant
                self.wf(),
                n == self.n,
                self.memo_ok(memo@),
                peer@.len() == n,
                shares.len() == n,
                mask_set(mask).subset_of(set_int_range(0, n as int)),
                self.best(mask_set(mask)) is Some,
                self.best(mask_set(full)) == Some(best_full),
                seq_sum(shares) + self.best(mask_set(mask))->Some_0 == best_full,
                forall|u: int|
                    0 <= u < n && mask_set(mask).contains(u) ==> #[trigger] peer@[u] is None
                        && shares[u] == 0,
                forall|u: int|
                    0 <= u < n && !mask_set(mask).contains(u) ==> match #[trigger] peer@[u] {
                        None => self.solo@[u] is Some,
                        Some(w) => {
                            &&& w < n
                            &&& w != u
                            &&& !mask_set(mask).contains(w as int)
                            &&& peer@[w as int] == Some(u as usize)
                            &&& (u < w ==> self.pair@[u]@[w as int] is Some)
                        },
                    },
                forall|u: int|
                    0 <= u < n && !mask_set(mask).contains(u) ==> shares[u] == self.contribution(
                        peer@,
                        u,
                    ),
            decreases mask,
        {
            proof {
                lemma_mask_set_finite(mask);
                lemma_mask_empty(mask);
            }
            let i = Self::lowest_bit(mask);
            let rest = mask & !(1u64 << i);
            proof {
                lemma_clear_bit(mask, i);
                lemma_mask_set_finite(rest);
            }
            let current = self.solve(mask, &mut memo);
            let cur = match current {
                Some(c) => c,
                None => 0,
            };
            let ghost s = mask_set(mask);
            let ghost rs = mask_set(rest);
            assert(s.contains(i as int));
            assert(i < n);
            let solo_option: Option<Weight> = match self.solo[i as usize] {
                Some(b) => match self.solve(rest, &mut memo) {
                    Some(x) => Some(b + x),
                    None => None,
                },
                None => None,
            };
            if solo_option == Some(cur) {
                // match `i` to the boundary
                proof {
                    let w = self.solo@[i as int]->Some_0;
                    assert(peer@[i as int] is None);
                    assert(shares[i as int] == 0);
                    lemma_seq_sum_update(shares, i as int, w as int);
                    shares = shares.update(i as int, w as int);
                    assert forall|u: int|
                        0 <= u < n && !mask_set(rest).contains(u) implies shares[u]
                        == self.contribution(peer@, u) by {
                        if u != i {
                            assert(!mask_set(mask).contains(u));
                        }
                    }
                }
                mask = rest;
            } else {
                proof {
                    assert(best_pairing(self.pair_fn(), self.solo_fn(), i as int, rs, 64) == Some(
                        cur as int,
                    ));
                    lemma_best_pairing_attained(self.pair_fn(), self.solo_fn(), i as int, rs, 64);
                }
                let mut k: u64 = 0;
                let mut found: u64 = 64;
                while k < 64
                    invariant
                        self.wf(),
                        n == self.n,
                        i < 64,
                        i < n,
                        s == mask_set(mask),
                        rs == mask_set(rest),
                        rs == s.remove(i as int),
                        rs.finite(),
                        s.subset_of(set_int_range(0, n as int)),
                        self.memo_ok(memo@),
                        k <= 64,
                        found <= 64,
                        found < 64 ==> {
                            &&& rs.contains(found as int)
                            &&& opt_add(
                                self.pair_fn()(i as int, found as int),
                                self.best(rs.remove(found as int)),
                            ) == Some(cur as int)
                        },
                        found == 64 ==> forall|j: int|
                            0 <= j < k && rs.contains(j) ==> #[trigger] opt_add(
                                self.pair_fn()(i as int, j),
                                self.best(rs.remove(j)),
                            ) != Some(cur as int),
                    decreases 64 - k,
                {
                    if found == 64 && (rest >> k) & 1 == 1 {
                        let rest_k = rest & !(1u64 << k);
                        proof {
                            lemma_clear_bit(rest, k);
                            lemma_mask_set_finite(rest_k);
                            assert(rs.contains(k as int));
                            assert(s.contains(k as int));
                        }
                        let candidate: Option<Weight> = match self.pair[i as usize][k as usize] {
                            Some(w) => match self.solve(rest_k, &mut memo) {
                                Some(x) => Some(w + x),
                                None => None,
                            },
                            None => None,
                        };
                        if candidate == Some(cur) {
                            found = k;
                        }
                    } else {
                        proof {
                            if found == 64 {
                                assert(!rs.contains(k as int));
                            }
                        }
                    }
                    k = k + 1;
                }
                proof {
                    if found == 64 {
                        let kk = choose|kk: int|
                            0 <= kk < 64 && rs.contains(kk) && #[trigger] opt_add(
                                self.pair_fn()(i as int, kk),
                                best_matching(self.pair_fn(), self.solo_fn(), rs.remove(kk)),
                            ) == best_pairing(self.pair_fn(), self.solo_fn(), i as int, rs, 64);
                        assert(opt_add(self.pair_fn()(i as int, kk), self.best(rs.remove(kk)))
                            != Some(cur as int));
                        assert(false);
                    }
                }
                assert(found < 64);
                let partner = found;
                let next = rest & !(1u64 << partner);
                proof {
                    lemma_clear_bit(rest, partner);
                    assert(partner < n);
                    let w = self.pair@[i as int]@[partner as int]->Some_0;
                    assert(shares[i as int] == 0);
                    assert(s.contains(partner as int));
                    assert(peer@[partner as int] is None);
                    assert(i < partner) by {
                        if partner < i {
                            assert(!has_bit(mask, partner));
                        }
                    }
                    assert(shares[partner as int] == 0);
                    lemma_seq_sum_update(shares, i as int, w as int);
                    shares = shares.update(i as int, w as int);
                }
                peer.set(i as usize, Some(partner as usize));
                peer.set(partner as usize, Some(i as usize));
                proof {
                    assert forall|u: int|
                        0 <= u < n && !mask_set(next).contains(u) implies shares[u]
                        == self.contribution(peer@, u) by {
                        if u != i && u != partner {
                            assert(!mask_set(mask).contains(u));
                        }
                    }
                    assert forall|u: int|
                        0 <= u < n && !mask_set(next).contains(u) implies match #[trigger] peer@[u] {
                        None => self.solo@[u] is Some,
                        Some(w) => {
                            &&& w < n
                            &&& w != u
                            &&& !mask_set(next).contains(w as int)
                            &&& peer@[w as int] == Some(u as usize)
                            &&& (u < w ==> self.pair@[u]@[w as int] is Some)
                        },
                    } by {
                        if u != i && u != partner {
                            assert(!mask_set(mask).contains(u));
                        }
                    }
                }
                mask = next;
            }
        }
        proof {
            lemma_mask_empty(mask);
            assert(shares =~= Seq::new(n as nat, |v: int| self.contribution(peer@, v)));
        }
        Some(peer)
    }
}

/// the sum of zeros is zero
pub proof fn lemma_seq_sum_zero(n: nat)
    ensures
        seq_sum(Seq::new(n, |u: int| 0int)) == 0,
    decreases n,
{
    if n > 0 {
        assert(Seq::new(n, |u: int| 0int).drop_last() =~= Seq::new((n - 1) as nat, |u: int| 0int));
        lemma_seq_sum_zero((n - 1) as nat);
    }
}


/// the least weight of an edge joining `i` and `k`, `None` when there is none
pub open spec fn edge_pair_weight(edges: Seq<(usize, usize, u32)>, i: int, k: int) -> Option<int>
    decreases edges.len(),
{
    if edges.len() == 0 {
        None
    } else {
        let (a, b, w) = edges.last();
        let before = edge_pair_weight(edges.drop_last(), i, k);
        if (a == i && b == k) || (a == k && b == i) {
            opt_min(before, Some(w as int))
        } else {
            before
        }
    }
}

/// the least weight of a perfect matching of the first `node_num` vertices over `edges`
pub open spec fn edge_matching_best(node_num: nat, edges: Seq<(usize, usize, u32)>) -> Option<int> {
    best_matching(
        |i: int, k: int| edge_pair_weight(edges, i, k),
        |i: int| None::<int>,
        set_int_range(0, node_num as int),
    )
}

/// the total weight of a perfect matching given as the peer of each vertex
pub open spec fn edge_matching_weight(edges: Seq<(usize, usize, u32)>, peer: Seq<usize>) -> int {
    seq_sum(
        Seq::new(
            peer.len(),
            |v: int|
                if v < peer[v] {
                    edge_pair_weight(edges, v, peer[v] as int)->Some_0
                } else {
                    0
                },
        ),
    )
}

/// `pair_weight_from_edges` scans the edges in order
proof fn lemma_edge_pair_weight_step(edges: Seq<(usize, usize, u32)>, e: int, i: int, k: int)
    requires
        0 <= e < edges.len(),
    ensures
        edge_pair_weight(edges.subrange(0, e + 1), i, k) == (if (edges[e].0 == i && edges[e].1 == k)
            || (edges[e].0 == k && edges[e].1 == i) {
            opt_min(edge_pair_weight(edges.subrange(0, e), i, k), Some(edges[e].2 as int))
        } else {
            edge_pair_weight(edges.subrange(0, e), i, k)
        }),
{
    assert(edges.subrange(0, e + 1).drop_last() =~= edges.subrange(0, e));
}

/// the least weight of an edge joining `i` and `k`
fn pair_weight_from_edges(weighted_edges: &Vec<(usize, usize, u32)>, i: usize, k: usize) -> (r: Option<
    Weight,
>)
    ensures
        opt_int(r) == edge_pair_weight(weighted_edges@, i as int, k as int),
        r matches Some(w) ==> 0 <= w <= u32::MAX,
{
    let mut best: Option<Weight> = None;
    let mut e: usize = 0;
    while e < weighted_edges.len()
        invariant
            e <= weighted_edges@.len(),
            opt_int(best) == edge_pair_weight(weighted_edges@.subrange(0, e as int), i as int, k as int),
            best matches Some(w) ==> 0 <= w <= u32::MAX,
        decreases weighted_edges@.len() - e,
    {
        let (a, b, w) = weighted_edges[e];
        proof {
            lemma_edge_pair_weight_step(weighted_edges@, e as int, i as int, k as int);
        }
        if (a == i && b == k) || (a == k && b == i) {
            let w = w as Weight;
            best = match best {
                Some(x) => Some(
                    if x <= w {
                        x
                    } else {
                        w
                    },
                ),
                None => Some(w),
            };
        }
        e = e + 1;
    }
    assert(weighted_edges@.subrange(0, weighted_edges@.len() as int) =~= weighted_edges@);
    best
}

/// minimum-weight perfect matching of `node_num` vertices over the weighted edges: the result
/// holds the vertex matched with each vertex
pub fn safe_minimum_weight_perfect_matching(node_num: usize, weighted_edges: &Vec<(usize, usize, u32)>) -> (r:
    Vec<usize>)
    requires
        node_num <= MAX_MATCHING_VERTICES,
        forall|e: int|
            0 <= e < weighted_edges@.len() ==> (#[trigger] weighted_edges@[e]).0 < node_num
                && weighted_edges@[e].1 < node_num && weighted_edges@[e].0 != weighted_edges@[e].1,
        edge_matching_best(node_num as nat, weighted_edges@) is Some,
    ensures
        r@.len() == node_num,
        forall|i: int|
            0 <= i < node_num ==> {
                &&& #[trigger] r@[i] < node_num
                &&& r@[i] != i
                &&& r@[r@[i] as int] == i
                &&& edge_pair_weight(weighted_edges@, i, r@[i] as int) is Some
            },
        Some(edge_matching_weight(weighted_edges@, r@)) == edge_matching_best(
            node_num as nat,
            weighted_edges@,
        ),
{
    let mut pair: Vec<Vec<Option<Weight>>> = Vec::new();
    let mut solo: Vec<Option<Weight>> = Vec::new();
    let mut i: usize = 0;
    while i < node_num
        invariant
            i <= node_num,
            pair@.len() == i,
            solo@.len() == i,
            forall|x: int| 0 <= x < i ==> (#[trigger] solo@[x]) is None,
            forall|x: int| 0 <= x < i ==> (#[trigger] pair@[x])@.len() == node_num,
            forall|x: int, y: int|
                0 <= x < i && 0 <= y < node_num ==> opt_int(#[trigger] pair@[x]@[y])
                    == edge_pair_weight(weighted_edges@, x, y) && (pair@[x]@[y] matches Some(w) ==> 0
                    <= w <= u32::MAX),
        decreases node_num - i,
    {
        let mut row: Vec<Option<Weight>> = Vec::new();
        let mut k: usize = 0;
        while k < node_num
            invariant
                k <= node_num,
                row@.len() == k,
                forall|y: int|
                    0 <= y < k ==> opt_int(#[trigger] row@[y]) == edge_pair_weight(
                        weighted_edges@,
                        i as int,
                        y,
                    ) && (row@[y] matches Some(w) ==> 0 <= w <= u32::MAX),
            decreases node_num - k,
        {
            row.push(pair_weight_from_edges(weighted_edges, i, k));
            k = k + 1;
        }
        pair.push(row);
        solo.push(None);
        i = i + 1;
    }
    let problem = MatchingProblem { n: node_num, pair, solo };
    assert(problem.best(set_int_range(0, node_num as int)) == edge_matching_best(
        node_num as nat,
        weighted_edges@,
    )) by {
        lemma_int_range(0, node_num as int);
        lemma_best_matching_ext(
            problem.pair_fn(),
            problem.solo_fn(),
            |x: int, y: int| edge_pair_weight(weighted_edges@, x, y),
            |x: int| None::<int>,
            node_num as int,
            set_int_range(0, node_num as int),
        );
    }
    let peers = problem.minimum_weight_matching();
    let peers = match peers {
        Some(p) => p,
        None => Vec::new(),
    };
    let mut r: Vec<usize> = Vec::new();
    let mut v: usize = 0;
    while v < node_num
        invariant
            v <= node_num,
            peers@.len() == node_num,
            problem.is_perfect_matching(peers@),
            forall|x: int| 0 <= x < node_num ==> (#[trigger] problem.solo@[x]) is None,
            r@.len() == v,
            forall|x: int| 0 <= x < v ==> peers@[x] == Some(#[trigger] r@[x]),
        decreases node_num - v,
    {
        let p = match peers[v] {
            Some(u) => u,
            None => v,
        };
        r.push(p);
        v = v + 1;
    }
    proof {
        assert forall|x: int| 0 <= x < node_num implies {
            &&& #[trigger] r@[x] < node_num
            &&& r@[x] != x
            &&& r@[r@[x] as int] == x
            &&& edge_pair_weight(weighted_edges@, x, r@[x] as int) is Some
        } by {
            assert(peers@[x] == Some(r@[x]));
            let u = r@[x] as int;
            assert(peers@[u] == Some(r@[u]));
            if x < u {
                assert(problem.pair@[x]@[u] is Some);
            } else {
                assert(problem.pair@[u]@[x] is Some);
                lemma_edge_pair_weight_symmetric(weighted_edges@, u, x);
            }
        }
        assert(Seq::new(node_num as nat, |x: int| problem.contribution(peers@, x)) =~= Seq::new(
            r@.len(),
            |x: int|
                if x < r@[x] {
                    edge_pair_weight(weighted_edges@, x, r@[x] as int)->Some_0
                } else {
                    0
                },
        ));
    }
    r
}

/// the edges joining `i` and `k` also join `k` and `i`
pub proof fn lemma_edge_pair_weight_symmetric(edges: Seq<(usize, usize, u32)>, i: int, k: int)
    ensures
        edge_pair_weight(edges, i, k) == edge_pair_weight(edges, k, i),
    decreases edges.len(),
{
    if edges.len() > 0 {
        lemma_edge_pair_weight_symmetric(edges.drop_last(), i, k);
    }
}

/// the best matching only depends on the weights of the vertices below `n`
pub proof fn lemma_best_matching_ext(
    pair1: spec_fn(int, int) -> Option<int>,
    solo1: spec_fn(int) -> Option<int>,
    pair2: spec_fn(int, int) -> Option<int>,
    solo2: spec_fn(int) -> Option<int>,
    n: int,
    s: Set<int>,
)
    requires
        s.finite(),
        s.subset_of(set_int_range(0, n)),
        forall|i: int, k: int| 0 <= i < n && 0 <= k < n ==> #[trigger] pair1(i, k) == pair2(i, k),
        forall|i: int| 0 <= i < n ==> #[trigger] solo1(i) == solo2(i),
    ensures
        best_matching(pair1, solo1, s) == best_matching(pair2, solo2, s),
    decreases s.len(), 0int, 0int,
{
    if s.len() > 0 {
        let i = lowest_from(s, 0);
        if s.contains(i) {
            let rest = s.remove(i);
            lemma_best_matching_ext(pair1, solo1, pair2, solo2, n, rest);
            lemma_best_pairing_ext(pair1, solo1, pair2, solo2, n, i, rest, 64);
        }
    }
}

/// the best pairing only depends on the weights of the vertices below `n`
pub proof fn lemma_best_pairing_ext(
    pair1: spec_fn(int, int) -> Option<int>,
    solo1: spec_fn(int) -> Option<int>,
    pair2: spec_fn(int, int) -> Option<int>,
    solo2: spec_fn(int) -> Option<int>,
    n: int,
    i: int,
    rest: Set<int>,
    j: int,
)
    requires
        rest.finite(),
        rest.subset_of(set_int_range(0, n)),
        0 <= i < n,
        forall|i: int, k: int| 0 <= i < n && 0 <= k < n ==> #[trigger] pair1(i, k) == pair2(i, k),
        forall|i: int| 0 <= i < n ==> #[trigger] solo1(i) == solo2(i),
    ensures
        best_pairing(pair1, solo1, i, rest, j) == best_pairing(pair2, solo2, i, rest, j),
    decreases rest.len(), 1int, j,
{
    if j > 0 {
        let k = j - 1;
        lemma_best_pairing_ext(pair1, solo1, pair2, solo2, n, i, rest, k);
        if rest.contains(k) {
            lemma_best_matching_ext(pair1, solo1, pair2, solo2, n, rest.remove(k));
        }
    }
}

} // verus!
