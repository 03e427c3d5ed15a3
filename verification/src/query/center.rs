use vstd::prelude::*;
use crate::node::Cluster;
use crate::query::arith::{cap_add, max, sat_add, max2};

verus! {

/// Summary for the center of a tree: for a path cluster, `radius` is the
/// largest distance from its middle vertex into either side; the farthest
/// distance from each boundary vertex; and the length of the path between
/// the two boundary vertices.
#[derive(Clone, Copy, Debug, PartialEq, Eq)]
pub struct Center {
    pub radius: usize,
    pub max_dist_left: usize,
    pub max_dist_right: usize,
    pub length: usize,
}

impl Center {
    /// The cluster of one edge of length `l`.
    pub fn new(l: usize) -> (r: Self)
        ensures
            r == (Center { radius: l, max_dist_left: l, max_dist_right: l, length: l }),
    {
        Center { radius: l, max_dist_left: l, max_dist_right: l, length: l }
    }
}

impl Cluster for Center {
    type V = usize;

    open spec fn spec_identity() -> Self {
        Center { radius: 0, max_dist_left: 0, max_dist_right: 0, length: 0 }
    }

    open spec fn spec_compress(a: Self, b: Self, av: usize, bv: usize, cv: usize) -> Self {
        Center {
            radius: max2(a.max_dist_right as int, b.max_dist_left as int) as usize,
            max_dist_left: max2(
                a.max_dist_left as int,
                sat_add(a.length as int, b.max_dist_left as int),
            ) as usize,
            max_dist_right: max2(
                b.max_dist_right as int,
                sat_add(b.length as int, a.max_dist_right as int),
            ) as usize,
            length: sat_add(a.length as int, b.length as int) as usize,
        }
    }

    open spec fn spec_rake(a: Self, b: Self, av: usize, bv: usize, cv: usize) -> Self {
        Center {
            radius: 0,
            max_dist_left: max2(
                a.max_dist_left as int,
                sat_add(a.length as int, b.max_dist_right as int),
            ) as usize,
            max_dist_right: max2(a.max_dist_right as int, b.max_dist_right as int) as usize,
            length: a.length,
        }
    }

    open spec fn spec_reverse(self) -> Self {
        Center { max_dist_left: self.max_dist_right, max_dist_right: self.max_dist_left, ..self }
    }

    fn identity() -> (r: Self) {
        Center { radius: 0, max_dist_left: 0, max_dist_right: 0, length: 0 }
    }

    fn compress(a: Self, b: Self, av: usize, bv: usize, cv: usize) -> (r: Self) {
        Center {
            radius: max(a.max_dist_right, b.max_dist_left),
            max_dist_left: max(a.max_dist_left, cap_add(a.length, b.max_dist_left)),
            max_dist_right: max(b.max_dist_right, cap_add(b.length, a.max_dist_right)),
            length: cap_add(a.length, b.length),
        }
    }

    fn rake(a: Self, b: Self, av: usize, bv: usize, cv: usize) -> (r: Self) {
        Center {
            radius: 0,
            max_dist_left: max(a.max_dist_left, cap_add(a.length, b.max_dist_right)),
            max_dist_right: max(a.max_dist_right, b.max_dist_right),
            length: a.length,
        }
    }

    fn reverse(&mut self) {
        let l = self.max_dist_left;
        self.max_dist_left = self.max_dist_right;
        self.max_dist_right = l;
    }

    proof fn lemma_reverse_involutive(a: Self) {
    }
}

} // verus!

verus! {

/// Reversing twice gives the cluster back.
pub proof fn lemma_center_reverse_involutive(a: Center)
    ensures
        a.spec_reverse().spec_reverse() == a,
{
}

/// The `radius` of a joined path is the largest distance from its middle
/// vertex, where the two parts meet: it is at least the left part's
/// distance to its right end and the right part's distance from its left
/// end, and it is one of the two.
pub proof fn lemma_center_radius_from_middle(a: Center, b: Center, x: usize, y: usize, z: usize)
    ensures
        ({
            let r = Center::spec_compress(a, b, x, y, z).radius;
            &&& r >= a.max_dist_right
            &&& r >= b.max_dist_left
            &&& (r == a.max_dist_right || r == b.max_dist_left)
        }),
{
}

/// The `radius` of a joined path does not depend on the `radius` of its parts:
/// parts that differ only there join to the same `radius`.
pub proof fn lemma_center_radius_ignores_parts(
    a: Center,
    b: Center,
    a2: Center,
    b2: Center,
    x: usize,
    y: usize,
    z: usize,
)
    requires
        a2.max_dist_left == a.max_dist_left,
        a2.max_dist_right == a.max_dist_right,
        a2.length == a.length,
        b2.max_dist_left == b.max_dist_left,
        b2.max_dist_right == b.max_dist_right,
        b2.length == b.length,
    ensures
        Center::spec_compress(a2, b2, x, y, z) == Center::spec_compress(a, b, x, y, z),
{
}

/// From the left end of a joined path the farthest vertex lies in the left
/// part, or past its whole length in the right part; from the right end,
/// the same the other way round. Lengths add up, capped at `usize::MAX`.
pub proof fn lemma_center_compress_ends(a: Center, b: Center, x: usize, y: usize, z: usize)
    ensures
        ({
            let r = Center::spec_compress(a, b, x, y, z);
            &&& r.max_dist_left >= a.max_dist_left
            &&& r.max_dist_left >= sat_add(a.length as int, b.max_dist_left as int)
            &&& (r.max_dist_left == a.max_dist_left
                || r.max_dist_left == sat_add(a.length as int, b.max_dist_left as int))
            &&& r.max_dist_right >= b.max_dist_right
            &&& r.max_dist_right >= sat_add(b.length as int, a.max_dist_right as int)
            &&& (r.max_dist_right == b.max_dist_right
                || r.max_dist_right == sat_add(b.length as int, a.max_dist_right as int))
            &&& r.length == sat_add(a.length as int, b.length as int)
        }),
{
}

/// Reversing a joined path is joining the reversed parts in the other order.
pub proof fn lemma_center_reverse_compress(a: Center, b: Center, x: usize, y: usize, z: usize)
    ensures
        Center::spec_compress(a, b, x, y, z).spec_reverse()
            == Center::spec_compress(b.spec_reverse(), a.spec_reverse(), y, x, z),
{
}

/// The distances to the boundaries and the length do not depend on how a
/// path is split.
pub proof fn lemma_center_compress_assoc(a: Center, b: Center, c: Center, x: usize, y: usize, z: usize)
    ensures
        ({
            let l = Center::spec_compress(Center::spec_compress(a, b, x, y, z), c, x, y, z);
            let r = Center::spec_compress(a, Center::spec_compress(b, c, x, y, z), x, y, z);
            l.max_dist_left == r.max_dist_left && l.max_dist_right == r.max_dist_right && l.length == r.length
        }),
{
}

} // verus!
