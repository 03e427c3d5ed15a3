use vstd::prelude::*;
use crate::node::{Cluster, TopTree, Vertex};
use crate::link::link;
use crate::cut::cut;
use crate::expose::expose;
use crate::query::arith::{cap_add, max, sat_add, max2};

verus! {

/// The value of a vertex that carries none.
#[derive(Clone, Copy, Debug, Default, PartialEq, Eq)]
pub struct NoValue;

/// Summary for the farthest vertex from a vertex: for a path cluster,
/// `ans` is the largest distance from its middle vertex into either side;
/// the farthest distance from each boundary vertex; and the length of the
/// path between the two boundary vertices. Vertices carry no value.
#[derive(Clone, Copy, Debug, PartialEq, Eq)]
pub struct Farthest {
    pub ans: usize,
    pub max_dist_left: usize,
    pub max_dist_right: usize,
    pub length: usize,
}

impl Farthest {
    /// The cluster of one edge of length `l`.
    pub fn new(l: usize) -> (r: Self)
        ensures
            r == (Farthest { ans: l, max_dist_left: l, max_dist_right: l, length: l }),
    {
        Farthest { ans: l, max_dist_left: l, max_dist_right: l, length: l }
    }
}

impl Cluster for Farthest {
    type V = NoValue;

    open spec fn spec_identity() -> Self {
        Farthest { ans: 0, max_dist_left: 0, max_dist_right: 0, length: 0 }
    }

    open spec fn spec_compress(a: Self, b: Self, av: NoValue, bv: NoValue, cv: NoValue) -> Self {
        Farthest {
            ans: max2(a.max_dist_right as int, b.max_dist_left as int) as usize,
            max_dist_left: max2(
                a.max_dist_left as int,
                sat_add(a.length as int, b.max_dist_left as int),
            ) as usize,
            max_dist_right: max2(
                b.max_dist_right as int,
                sat_add(b.length as int, a.max_dist_right as int),
            ) as usize,
            length: sat_add(a.length as int, b.length as int) as usize,
        }
    }

    open spec fn spec_rake(a: Self, b: Self, av: NoValue, bv: NoValue, cv: NoValue) -> Self {
        Farthest {
            ans: 0,
            max_dist_left: max2(
                a.max_dist_left as int,
                sat_add(a.length as int, b.max_dist_right as int),
            ) as usize,
            max_dist_right: max2(a.max_dist_right as int, b.max_dist_right as int) as usize,
            length: a.length,
        }
    }

    open spec fn spec_reverse(self) -> Self {
        Farthest { max_dist_left: self.max_dist_right, max_dist_right: self.max_dist_left, ..self }
    }

    fn identity() -> (r: Self) {
        Farthest { ans: 0, max_dist_left: 0, max_dist_right: 0, length: 0 }
    }

    fn compress(a: Self, b: Self, av: NoValue, bv: NoValue, cv: NoValue) -> (r: Self) {
        Farthest {
            ans: max(a.max_dist_right, b.max_dist_left),
            max_dist_left: max(a.max_dist_left, cap_add(a.length, b.max_dist_left)),
            max_dist_right: max(b.max_dist_right, cap_add(b.length, a.max_dist_right)),
            length: cap_add(a.length, b.length),
        }
    }

    fn rake(a: Self, b: Self, av: NoValue, bv: NoValue, cv: NoValue) -> (r: Self) {
        Farthest {
            ans: 0,
            max_dist_left: max(a.max_dist_left, cap_add(a.length, b.max_dist_right)),
            max_dist_right: max(a.max_dist_right, b.max_dist_right),
            length: a.length,
        }
    }

    fn reverse(&mut self) {
        let l = self.max_dist_left;
        self.max_dist_left = self.max_dist_right;
        self.max_dist_right = l;
    }

    proof fn lemma_reverse_involutive(a: Self) {
    }
}

} // verus!

verus! {

/// Reversing twice gives the cluster back.
pub proof fn lemma_farthest_vertex_reverse_involutive(a: Farthest)
    ensures
        a.spec_reverse().spec_reverse() == a,
{
}

/// The `ans` of a joined path is the largest distance from its middle
/// vertex, where the two parts meet: it is at least the left part's
/// distance to its right end and the right part's distance from its left
/// end, and it is one of the two.
pub proof fn lemma_farthest_vertex_ans_from_middle(a: Farthest, b: Farthest, x: NoValue, y: NoValue, z: NoValue)
    ensures
        ({
            let r = Farthest::spec_compress(a, b, x, y, z).ans;
            &&& r >= a.max_dist_right
            &&& r >= b.max_dist_left
            &&& (r == a.max_dist_right || r == b.max_dist_left)
        }),
{
}

/// The `ans` of a joined path does not depend on the `ans` of its parts:
/// parts that differ only there join to the same `ans`.
pub proof fn lemma_farthest_vertex_ans_ignores_parts(
    a: Farthest,
    b: Farthest,
    a2: Farthest,
    b2: Farthest,
    x: NoValue,
    y: NoValue,
    z: NoValue,
)
    requires
        a2.max_dist_left == a.max_dist_left,
        a2.max_dist_right == a.max_dist_right,
        a2.length == a.length,
        b2.max_dist_left == b.max_dist_left,
        b2.max_dist_right == b.max_dist_right,
        b2.length == b.length,
    ensures
        Farthest::spec_compress(a2, b2, x, y, z) == Farthest::spec_compress(a, b, x, y, z),
{
}

/// From the left end of a joined path the farthest vertex lies in the left
/// part, or past its whole length in the right part; from the right end,
/// the same the other way round. Lengths add up, capped at `usize::MAX`.
pub proof fn lemma_farthest_vertex_compress_ends(a: Farthest, b: Farthest, x: NoValue, y: NoValue, z: NoValue)
    ensures
        ({
            let r = Farthest::spec_compress(a, b, x, y, z);
            &&& r.max_dist_left >= a.max_dist_left
            &&& r.max_dist_left >= sat_add(a.length as int, b.max_dist_left as int)
            &&& (r.max_dist_left == a.max_dist_left
                || r.max_dist_left == sat_add(a.length as int, b.max_dist_left as int))
            &&& r.max_dist_right >= b.max_dist_right
            &&& r.max_dist_right >= sat_add(b.length as int, a.max_dist_right as int)
            &&& (r.max_dist_right == b.max_dist_right
                || r.max_dist_right == sat_add(b.length as int, a.max_dist_right as int))
            &&& r.length == sat_add(a.length as int, b.length as int)
        }),
{
}

/// Reversing a joined path is joining the reversed parts in the other order.
pub proof fn lemma_farthest_vertex_reverse_compress(a: Farthest, b: Farthest, x: NoValue, y: NoValue, z: NoValue)
    ensures
        Farthest::spec_compress(a, b, x, y, z).spec_reverse()
            == Farthest::spec_compress(b.spec_reverse(), a.spec_reverse(), y, x, z),
{
}

/// The distances to the boundaries and the length do not depend on how a
/// path is split.
pub proof fn lemma_farthest_vertex_compress_assoc(a: Farthest, b: Farthest, c: Farthest, x: NoValue, y: NoValue, z: NoValue)
    ensures
        ({
            let l = Farthest::spec_compress(Farthest::spec_compress(a, b, x, y, z), c, x, y, z);
            let r = Farthest::spec_compress(a, Farthest::spec_compress(b, c, x, y, z), x, y, z);
            l.max_dist_left == r.max_dist_left && l.max_dist_right == r.max_dist_right && l.length == r.length
        }),
{
}

} // verus!

verus! {

/// How many of the queries `qs` are of kind `t`.
pub open spec fn count_kind(qs: Seq<(usize, usize, usize)>, t: usize) -> nat
    decreases qs.len(),
{
    if qs.len() == 0 {
        0
    } else {
        count_kind(qs.drop_last(), t) + if qs.last().0 == t { 1nat } else { 0nat }
    }
}

/// Every query names what exists when it comes: a query `(1, a, c)` hangs a
/// new vertex from vertex `a` by an edge of length `c`; `(2, a, c)` gives
/// the `a`-th edge added (counting from 1) the length `c`; `(3, a, _)` asks
/// for the farthest distance from vertex `a`. Vertex 0 is there from the
/// start, and each query of the first kind adds the next vertex.
pub open spec fn farthest_queries_ok(qs: Seq<(usize, usize, usize)>) -> bool {
    forall|k: int| 0 <= k < qs.len() ==> {
        let q = #[trigger] qs[k];
        let added = count_kind(qs.take(k), 1);
        &&& (q.0 == 1 ==> q.1 <= added)
        &&& (q.0 == 2 ==> 1 <= q.1 <= added)
        &&& (q.0 == 3 ==> q.1 <= added)
    }
}

/// Answers the farthest-vertex queries `qs` (see `farthest_queries_ok`) on
/// a fresh forest in `tree`, one answer per query of the third kind, in
/// order: the largest distance from the vertex asked about.
pub fn farthest_answers(tree: &mut TopTree<Farthest>, qs: &Vec<(usize, usize, usize)>) -> (answers: Vec<usize>)
    requires
        old(tree).inv(),
        farthest_queries_ok(qs@),
    ensures
        final(tree).inv(),
        answers.len() == count_kind(qs@, 3),
{
    let mut answers: Vec<usize> = Vec::new();
    let mut v: Vec<Vertex> = Vec::new();
    let first = Vertex::new(tree, NoValue);
    v.push(first);
    let mut es: Vec<(usize, usize)> = Vec::new();
    // the slot in `tree` of the edge that each entry of `es` stands for
    let ghost mut eids: Seq<int> = Seq::empty();
    let mut k: usize = 0;
    while k < qs.len()
        invariant
            0 <= k <= qs.len(),
            tree.inv(),
            farthest_queries_ok(qs@),
            v.len() == 1 + count_kind(qs@.take(k as int), 1),
            es.len() == count_kind(qs@.take(k as int), 1),
            answers.len() == count_kind(qs@.take(k as int), 3),
            forall|i: int| 0 <= i < v.len() ==> tree.vx_ok(#[trigger] v@[i]),
            forall|i: int| 0 <= i < es.len() ==> (#[trigger] es@[i]).0 < v.len() && es@[i].1 < v.len(),
            eids.len() == es.len(),
            forall|i: int| 0 <= i < es.len() ==> 0 <= #[trigger] eids[i] < tree.es().len()
                && tree.joins(eids[i], v@[es@[i].0 as int], v@[es@[i].1 as int]),
        decreases qs.len() - k,
    {
        let (t, a, c) = qs[k];
        proof {
            assert(qs@.take(k + 1).drop_last() =~= qs@.take(k as int));
            let q = qs@[k as int];
        }
        if t == 1 {
            let ghost pre = *tree;
            let new_v = Vertex::new(tree, NoValue);
            v.push(new_v);
            let ghost before = *tree;
            let r = link(tree, v[a], new_v, Farthest::new(c));
            proof {
                TopTree::lemma_edges_kept_trans(&pre, &before, tree);
                assert forall|i: int| 0 <= i < tree.vertices.len() implies (#[trigger] tree.vertices@[i]).handle is Some by {
                    assert(before.vertices@[i].handle is Some);
                }
                assert forall|i: int| 0 <= i < es.len() implies 0 <= #[trigger] eids[i] < tree.es().len()
                    && tree.joins(eids[i], v@[es@[i].0 as int], v@[es@[i].1 as int]) by {
                    assert(pre.joins(eids[i], v@[es@[i].0 as int], v@[es@[i].1 as int]));
                    assert(TopTree::<Farthest>::same_edge(tree.es()[eids[i]], pre.es()[eids[i]]));
                }
                eids = eids.push(r as int);
            }
            es.push((a, v.len() - 1));
            proof {
                assert(tree.joins(r as int, v@[a as int], new_v));
            }
        } else if t == 2 {
            let (p, q) = es[a - 1];
            proof {
                assert(tree.joins(eids[a - 1], v@[p as int], v@[q as int]));
            }
            let ghost pre = *tree;
            cut(tree, v[p], v[q]);
            let ghost before = *tree;
            let r = link(tree, v[p], v[q], Farthest::new(c));
            proof {
                assert forall|i: int| 0 <= i < tree.vertices.len() implies (#[trigger] tree.vertices@[i]).handle is Some by {
                    assert(before.vertices@[i].handle is Some);
                }
                TopTree::lemma_edges_kept_trans(&pre, &before, tree);
                assert forall|i: int| 0 <= i < es.len() implies 0 <= #[trigger] eids[i] < tree.es().len()
                    && tree.joins(eids[i], v@[es@[i].0 as int], v@[es@[i].1 as int]) by {
                    assert(pre.joins(eids[i], v@[es@[i].0 as int], v@[es@[i].1 as int]));
                    assert(TopTree::<Farthest>::same_edge(tree.es()[eids[i]], pre.es()[eids[i]]));
                }
            }
        } else if t == 3 {
            let ghost pre = *tree;
            let root = expose(tree, v[a]);
            answers.push(root.fold(tree).ans);
            proof {
                assert forall|i: int| 0 <= i < es.len() implies 0 <= #[trigger] eids[i] < tree.es().len()
                    && tree.joins(eids[i], v@[es@[i].0 as int], v@[es@[i].1 as int]) by {
                    assert(pre.joins(eids[i], v@[es@[i].0 as int], v@[es@[i].1 as int]));
                    assert(TopTree::<Farthest>::same_edge(tree.es()[eids[i]], pre.es()[eids[i]]));
                }
            }
        }
        k = k + 1;
    }
    proof {
        assert(qs@.take(qs.len() as int) =~= qs@);
    }
    answers
}

} // verus!
