use vstd::prelude::*;
use crate::node::Cluster;
use crate::query::arith::{cap_add, sat_add};

verus! {

/// The length of a path: compressing adds lengths (capped at `usize::MAX`),
/// raking keeps the length of the path and drops what hangs from it.
impl Cluster for usize {
    type V = usize;

    open spec fn spec_identity() -> Self {
        0
    }

    open spec fn spec_compress(left: Self, right: Self, a: usize, b: usize, c: usize) -> Self {
        sat_add(left as int, right as int) as usize
    }

    open spec fn spec_rake(left: Self, right: Self, a: usize, b: usize, c: usize) -> Self {
        left
    }

    open spec fn spec_reverse(self) -> Self {
        self
    }

    fn identity() -> (r: Self) {
        0
    }

    fn compress(left: Self, right: Self, a: usize, b: usize, c: usize) -> (r: Self) {
        cap_add(left, right)
    }

    fn rake(left: Self, right: Self, a: usize, b: usize, c: usize) -> (r: Self) {
        left
    }

    fn reverse(&mut self) {
    }

    proof fn lemma_reverse_involutive(a: Self) {
    }
}

} // verus!

verus! {

/// Joining path lengths does not depend on how the path is split: compress
/// is associative, whatever the vertex values.
pub proof fn lemma_path_length_compress_assoc(a: usize, b: usize, c: usize, x: usize, y: usize, z: usize, p: usize, q: usize, s: usize)
    ensures
        usize::spec_compress(usize::spec_compress(a, b, x, y, z), c, p, q, s)
            == usize::spec_compress(a, usize::spec_compress(b, c, x, y, z), p, q, s),
{
}

/// The identity cluster, the length of an empty path, is neutral on both
/// sides of compress.
pub proof fn lemma_path_length_identity(a: usize, x: usize, y: usize, z: usize)
    ensures
        usize::spec_compress(usize::spec_identity(), a, x, y, z) == a,
        usize::spec_compress(a, usize::spec_identity(), x, y, z) == a,
{
}

/// Reversing a path keeps its length, and reversing a joined path is joining
/// the two parts in the other order.
pub proof fn lemma_path_length_reverse(a: usize, b: usize, x: usize, y: usize, z: usize)
    ensures
        a.spec_reverse() == a,
        usize::spec_compress(a, b, x, y, z).spec_reverse()
            == usize::spec_compress(b.spec_reverse(), a.spec_reverse(), y, x, z),
{
}

} // verus!
