use vstd::prelude::*;
use crate::node::Cluster;
use crate::query::arith::{cap_add, max, sat_add, max2};

verus! {

/// Summary for the diameter of a tree: the longest path inside the cluster,
/// the farthest distance from each boundary vertex, and the length of the
/// path between the two boundary vertices.
#[derive(Clone, Copy, Debug, PartialEq, Eq)]
pub struct Diameter {
    pub diam: usize,
    pub max_dist_left: usize,
    pub max_dist_right: usize,
    pub length: usize,
}

impl Diameter {
    /// The cluster of one edge of length `l`.
    pub fn new(l: usize) -> (r: Self)
        ensures
            r == (Diameter { diam: l, max_dist_left: l, max_dist_right: l, length: l }),
    {
        Diameter { diam: l, max_dist_left: l, max_dist_right: l, length: l }
    }
}

impl Cluster for Diameter {
    type V = usize;

    open spec fn spec_identity() -> Self {
        Diameter { diam: 0, max_dist_left: 0, max_dist_right: 0, length: 0 }
    }

    open spec fn spec_compress(a: Self, b: Self, av: usize, bv: usize, cv: usize) -> Self {
        Diameter {
            diam: max2(
                max2(a.diam as int, b.diam as int),
                sat_add(a.max_dist_right as int, b.max_dist_left as int),
            ) as usize,
            max_dist_left: max2(
                a.max_dist_left as int,
                sat_add(a.length as int, b.max_dist_left as int),
            ) as usize,
            max_dist_right: max2(
                b.max_dist_right as int,
                sat_add(b.length as int, a.max_dist_right as int),
            ) as usize,
            length: sat_add(a.length as int, b.length as int) as usize,
        }
    }

    open spec fn spec_rake(a: Self, b: Self, av: usize, bv: usize, cv: usize) -> Self {
        Diameter {
            diam: max2(
                max2(a.diam as int, b.diam as int),
                sat_add(a.max_dist_right as int, b.max_dist_right as int),
            ) as usize,
            max_dist_left: max2(
                a.max_dist_left as int,
                sat_add(a.length as int, b.max_dist_right as int),
            ) as usize,
            max_dist_right: max2(a.max_dist_right as int, b.max_dist_right as int) as usize,
            length: a.length,
        }
    }

    open spec fn spec_reverse(self) -> Self {
        Diameter { max_dist_left: self.max_dist_right, max_dist_right: self.max_dist_left, ..self }
    }

    fn identity() -> (r: Self) {
        Diameter { diam: 0, max_dist_left: 0, max_dist_right: 0, length: 0 }
    }

    fn compress(a: Self, b: Self, av: usize, bv: usize, cv: usize) -> (r: Self) {
        Diameter {
            diam: max(max(a.diam, b.diam), cap_add(a.max_dist_right, b.max_dist_left)),
            max_dist_left: max(a.max_dist_left, cap_add(a.length, b.max_dist_left)),
            max_dist_right: max(b.max_dist_right, cap_add(b.length, a.max_dist_right)),
            length: cap_add(a.length, b.length),
        }
    }

    fn rake(a: Self, b: Self, av: usize, bv: usize, cv: usize) -> (r: Self) {
        Diameter {
            diam: max(max(a.diam, b.diam), cap_add(a.max_dist_right, b.max_dist_right)),
            max_dist_left: max(a.max_dist_left, cap_add(a.length, b.max_dist_right)),
            max_dist_right: max(a.max_dist_right, b.max_dist_right),
            length: a.length,
        }
    }

    fn reverse(&mut self) {
        let l = self.max_dist_left;
        self.max_dist_left = self.max_dist_right;
        self.max_dist_right = l;
    }

    proof fn lemma_reverse_involutive(a: Self) {
    }
}

} // verus!

verus! {

/// Reversing twice gives the cluster back.
pub proof fn lemma_diameter_reverse_involutive(a: Diameter)
    ensures
        a.spec_reverse().spec_reverse() == a,
{
}

/// From the left end of a joined path the farthest vertex lies in the left
/// part, or past its whole length in the right part; from the right end,
/// the same the other way round. Lengths add up, capped at `usize::MAX`.
pub proof fn lemma_diameter_compress_ends(a: Diameter, b: Diameter, x: usize, y: usize, z: usize)
    ensures
        ({
            let r = Diameter::spec_compress(a, b, x, y, z);
            &&& r.max_dist_left >= a.max_dist_left
            &&& r.max_dist_left >= sat_add(a.length as int, b.max_dist_left as int)
            &&& (r.max_dist_left == a.max_dist_left
                || r.max_dist_left == sat_add(a.length as int, b.max_dist_left as int))
            &&& r.max_dist_right >= b.max_dist_right
            &&& r.max_dist_right >= sat_add(b.length as int, a.max_dist_right as int)
            &&& (r.max_dist_right == b.max_dist_right
                || r.max_dist_right == sat_add(b.length as int, a.max_dist_right as int))
            &&& r.length == sat_add(a.length as int, b.length as int)
        }),
{
}

/// Reversing a joined path is joining the reversed parts in the other order.
pub proof fn lemma_diameter_reverse_compress(a: Diameter, b: Diameter, x: usize, y: usize, z: usize)
    ensures
        Diameter::spec_compress(a, b, x, y, z).spec_reverse()
            == Diameter::spec_compress(b.spec_reverse(), a.spec_reverse(), y, x, z),
{
}

/// Joining three path clusters gives the same summary whichever pair is
/// joined first.
pub proof fn lemma_diameter_compress_assoc(a: Diameter, b: Diameter, c: Diameter, x: usize, y: usize, z: usize)
    ensures
        Diameter::spec_compress(Diameter::spec_compress(a, b, x, y, z), c, x, y, z)
            == Diameter::spec_compress(a, Diameter::spec_compress(b, c, x, y, z), x, y, z),
{
}

} // verus!
