//! The priority in which the reasons that stop the growth are resolved: a consistent total order
//! on dual node handles, and on the conflicts between them.
//!

use crate::dual_module::{DualNodePtr, MaxUpdateLength};
use std::cmp::Ordering;
use vstd::prelude::*;

verus! {

/// the order of two indices
pub open spec fn index_order(a: usize, b: usize) -> Ordering {
    if a < b {
        Ordering::Less
    } else if a == b {
        Ordering::Equal
    } else {
        Ordering::Greater
    }
}

/// the opposite order
pub open spec fn reversed(o: Ordering) -> Ordering {
    match o {
        Ordering::Less => Ordering::Greater,
        Ordering::Equal => Ordering::Equal,
        Ordering::Greater => Ordering::Less,
    }
}

/// the first order, or the second where the first finds the two equal
pub open spec fn then_order(first: Ordering, second: Ordering) -> Ordering {
    match first {
        Ordering::Equal => second,
        _ => first,
    }
}

/// the rank of each kind of reason: the lower, the later it is resolved
pub open spec fn kind_rank(m: MaxUpdateLength) -> usize {
    match m {
        MaxUpdateLength::VertexShrinkStop(_) => 0,
        MaxUpdateLength::BlossomNeedExpand(_) => 1,
        MaxUpdateLength::TouchingVirtual(..) => 2,
        MaxUpdateLength::Conflicting(..) => 3,
        MaxUpdateLength::NonZeroGrow(_) => 4,
    }
}

/// the priority of two reasons of the same kind: by the nodes they name
pub open spec fn same_kind_order(a: MaxUpdateLength, b: MaxUpdateLength) -> Ordering {
    match (a, b) {
        (MaxUpdateLength::VertexShrinkStop((x, _)), MaxUpdateLength::VertexShrinkStop((y, _))) => index_order(
            x.index,
            y.index,
        ),
        (MaxUpdateLength::BlossomNeedExpand(x), MaxUpdateLength::BlossomNeedExpand(y)) => index_order(
            x.index,
            y.index,
        ),
        (MaxUpdateLength::TouchingVirtual((x, _), (v, _)), MaxUpdateLength::TouchingVirtual((y, _), (w, _))) => {
            then_order(reversed(index_order(x.index, y.index)), reversed(index_order(v, w)))
        },
        (MaxUpdateLength::Conflicting((x, _), (v, _)), MaxUpdateLength::Conflicting((y, _), (w, _))) => {
            then_order(reversed(index_order(x.index, y.index)), reversed(index_order(v.index, w.index)))
        },
        _ => Ordering::Equal,
    }
}

/// the priority of two reasons: equal reasons are equal; a shrinking vertex that stops comes
/// after everything else, then a blossom to expand, then a node touching the boundary, and a
/// conflict between two nodes comes first; within a kind, by the nodes named
pub open spec fn priority_order(a: MaxUpdateLength, b: MaxUpdateLength) -> Ordering {
    if a == b {
        Ordering::Equal
    } else if kind_rank(a) != kind_rank(b) {
        index_order(kind_rank(a), kind_rank(b))
    } else {
        same_kind_order(a, b)
    }
}

/// the order of two indices
fn index_cmp(a: usize, b: usize) -> (r: Ordering)
    ensures
        r == index_order(a, b),
{
    if a < b {
        Ordering::Less
    } else if a == b {
        Ordering::Equal
    } else {
        Ordering::Greater
    }
}

/// the opposite order
fn reverse_order(o: Ordering) -> (r: Ordering)
    ensures
        r == reversed(o),
{
    match o {
        Ordering::Less => Ordering::Greater,
        Ordering::Equal => Ordering::Equal,
        Ordering::Greater => Ordering::Less,
    }
}

/// the first order, or the second where the first finds the two equal
fn then_cmp(first: Ordering, second: Ordering) -> (r: Ordering)
    ensures
        r == then_order(first, second),
{
    match first {
        Ordering::Equal => second,
        _ => first,
    }
}

impl DualNodePtr {
    /// a consistent order between handles: by the index of the node
    pub fn cmp(&self, other: &Self) -> (r: Ordering)
        ensures
            r == index_order(self.index, other.index),
    {
        index_cmp(self.index, other.index)
    }
}

impl MaxUpdateLength {
    /// the two reasons are the same
    pub fn same(&self, other: &Self) -> (r: bool)
        ensures
            r == (*self == *other),
    {
        match (self, other) {
            (MaxUpdateLength::NonZeroGrow((l1, f1)), MaxUpdateLength::NonZeroGrow((l2, f2))) => *l1 == *l2 && *f1 == *f2,
            (MaxUpdateLength::Conflicting((a1, b1), (c1, d1)), MaxUpdateLength::Conflicting((a2, b2), (c2, d2))) => {
                a1.index == a2.index && b1.index == b2.index && c1.index == c2.index && d1.index == d2.index
            },
            (MaxUpdateLength::TouchingVirtual((a1, b1), (v1, m1)), MaxUpdateLength::TouchingVirtual((a2, b2), (v2, m2))) => {
                a1.index == a2.index && b1.index == b2.index && *v1 == *v2 && *m1 == *m2
            },
            (MaxUpdateLength::BlossomNeedExpand(a1), MaxUpdateLength::BlossomNeedExpand(a2)) => a1.index == a2.index,
            (MaxUpdateLength::VertexShrinkStop((a1, p1)), MaxUpdateLength::VertexShrinkStop((a2, p2))) => {
                a1.index == a2.index && match (p1, p2) {
                    (Some((x1, y1)), Some((x2, y2))) => x1.index == x2.index && y1.index == y2.index,
                    (None, None) => true,
                    _ => false,
                }
            },
            _ => false,
        }
    }

    /// the rank of the kind of this reason
    fn rank(&self) -> (r: usize)
        ensures
            r == kind_rank(*self),
    {
        match self {
            MaxUpdateLength::VertexShrinkStop(_) => 0,
            MaxUpdateLength::BlossomNeedExpand(_) => 1,
            MaxUpdateLength::TouchingVirtual(..) => 2,
            MaxUpdateLength::Conflicting(..) => 3,
            MaxUpdateLength::NonZeroGrow(_) => 4,
        }
    }

    /// the priority of two reasons that stop the growth, see [`priority_order`]; a growth has no
    /// priority
    pub fn cmp(&self, other: &Self) -> (r: Ordering)
        requires
            !(*self is NonZeroGrow),
            !(*other is NonZeroGrow),
        ensures
            r == priority_order(*self, *other),
    {
        if self.same(other) {
            return Ordering::Equal;
        }
        let (rank_1, rank_2) = (self.rank(), other.rank());
        if rank_1 != rank_2 {
            return index_cmp(rank_1, rank_2);
        }
        match (self, other) {
            (MaxUpdateLength::VertexShrinkStop((x, _)), MaxUpdateLength::VertexShrinkStop((y, _))) => x.cmp(y),
            (MaxUpdateLength::BlossomNeedExpand(x), MaxUpdateLength::BlossomNeedExpand(y)) => x.cmp(y),
            (MaxUpdateLength::TouchingVirtual((x, _), (v, _)), MaxUpdateLength::TouchingVirtual((y, _), (w, _))) => {
                then_cmp(reverse_order(x.cmp(y)), reverse_order(index_cmp(*v, *w)))
            },
            (MaxUpdateLength::Conflicting((x, _), (v, _)), MaxUpdateLength::Conflicting((y, _), (w, _))) => {
                then_cmp(reverse_order(x.cmp(y)), reverse_order(v.cmp(w)))
            },
            _ => Ordering::Equal,
        }
    }
}

/// The priority is antisymmetric: comparing two reasons the other way round gives the opposite
/// order.
pub proof fn lemma_priority_antisymmetric(a: MaxUpdateLength, b: MaxUpdateLength)
    requires
        !(a is NonZeroGrow),
        !(b is NonZeroGrow),
    ensures
        priority_order(b, a) == reversed(priority_order(a, b)),
{
}

/// The priority is transitive: a reason that comes before a second one that comes before a third
/// comes before the third too.
pub proof fn lemma_priority_transitive(a: MaxUpdateLength, b: MaxUpdateLength, c: MaxUpdateLength)
    requires
        !(a is NonZeroGrow),
        !(b is NonZeroGrow),
        !(c is NonZeroGrow),
        priority_order(a, b) == Ordering::Less,
        priority_order(b, c) == Ordering::Less,
    ensures
        priority_order(a, c) == Ordering::Less,
{
}

} // verus!
