use vstd::prelude::*;
use crate::node::{Cluster, TopTree, Vertex, Edge};
use crate::link::link;
use crate::cut::cut;
use crate::expose::expose;
use crate::select::select;
use crate::query::arith::{cap_add, cap_mul, sat_add, sat_mul};

verus! {

/// Summary for the weighted median of a tree, where each vertex carries a
/// weight: `inter_weight` is the weight of the vertices inside the cluster
/// (boundaries excluded), `left_sum` and `right_sum` the weighted distances
/// of those vertices to the left and the right boundary, `length` the length
/// of the path between the boundaries, and `ans`, for a path cluster, the
/// weighted distance of all its vertices to its middle vertex.
#[derive(Clone, Copy, Debug, PartialEq, Eq)]
pub struct Median {
    pub inter_weight: usize,
    pub left_sum: usize,
    pub right_sum: usize,
    pub ans: usize,
    pub length: usize,
}

impl Median {
    /// The cluster of one edge of length `l`: no vertex inside it.
    pub fn new(l: usize) -> (r: Self)
        ensures
            r == (Median { inter_weight: 0, left_sum: 0, right_sum: 0, ans: 0, length: l }),
    {
        Median { inter_weight: 0, ans: 0, left_sum: 0, right_sum: 0, length: l }
    }
}

pub open spec fn add3(a: int, b: int, c: int) -> int {
    sat_add(sat_add(a, b), c)
}

pub open spec fn add4(a: int, b: int, c: int, d: int) -> int {
    sat_add(sat_add(sat_add(a, b), c), d)
}

impl Cluster for Median {
    type V = usize;

    open spec fn spec_identity() -> Self {
        Median { inter_weight: 0, left_sum: 0, right_sum: 0, ans: 0, length: 0 }
    }

    open spec fn spec_compress(a: Self, b: Self, av: usize, bv: usize, cv: usize) -> Self {
        Median {
            inter_weight: add3(a.inter_weight as int, b.inter_weight as int, cv as int) as usize,
            ans: add4(
                a.right_sum as int,
                b.left_sum as int,
                sat_mul(a.length as int, av as int),
                sat_mul(b.length as int, bv as int),
            ) as usize,
            left_sum: add3(
                a.left_sum as int,
                b.left_sum as int,
                sat_mul(a.length as int, sat_add(b.inter_weight as int, cv as int)),
            ) as usize,
            right_sum: add3(
                b.right_sum as int,
                a.right_sum as int,
                sat_mul(b.length as int, sat_add(a.inter_weight as int, cv as int)),
            ) as usize,
            length: sat_add(a.length as int, b.length as int) as usize,
        }
    }

    open spec fn spec_rake(a: Self, b: Self, av: usize, bv: usize, cv: usize) -> Self {
        Median {
            inter_weight: add3(a.inter_weight as int, b.inter_weight as int, bv as int) as usize,
            ans: 0,
            left_sum: add4(
                a.left_sum as int,
                b.right_sum as int,
                sat_mul(a.length as int, b.inter_weight as int),
                sat_mul(sat_add(a.length as int, b.length as int), bv as int),
            ) as usize,
            right_sum: add3(a.right_sum as int, b.right_sum as int, sat_mul(b.length as int, bv as int)) as usize,
            length: a.length,
        }
    }

    open spec fn spec_reverse(self) -> Self {
        Median { left_sum: self.right_sum, right_sum: self.left_sum, ..self }
    }

    fn identity() -> (r: Self) {
        Median { inter_weight: 0, left_sum: 0, right_sum: 0, ans: 0, length: 0 }
    }

    fn compress(a: Self, b: Self, av: usize, bv: usize, cv: usize) -> (r: Self) {
        Median {
            inter_weight: cap_add(cap_add(a.inter_weight, b.inter_weight), cv),
            ans: cap_add(
                cap_add(cap_add(a.right_sum, b.left_sum), cap_mul(a.length, av)),
                cap_mul(b.length, bv),
            ),
            left_sum: cap_add(
                cap_add(a.left_sum, b.left_sum),
                cap_mul(a.length, cap_add(b.inter_weight, cv)),
            ),
            right_sum: cap_add(
                cap_add(b.right_sum, a.right_sum),
                cap_mul(b.length, cap_add(a.inter_weight, cv)),
            ),
            length: cap_add(a.length, b.length),
        }
    }

    fn rake(a: Self, b: Self, av: usize, bv: usize, cv: usize) -> (r: Self) {
        Median {
            inter_weight: cap_add(cap_add(a.inter_weight, b.inter_weight), bv),
            ans: 0,
            left_sum: cap_add(
                cap_add(cap_add(a.left_sum, b.right_sum), cap_mul(a.length, b.inter_weight)),
                cap_mul(cap_add(a.length, b.length), bv),
            ),
            right_sum: cap_add(cap_add(a.right_sum, b.right_sum), cap_mul(b.length, bv)),
            length: a.length,
        }
    }

    fn reverse(&mut self) {
        let l = self.left_sum;
        self.left_sum = self.right_sum;
        self.right_sum = l;
    }

    proof fn lemma_reverse_involutive(a: Self) {
    }
}

} // verus!

verus! {

/// Reversing twice gives the cluster back.
pub proof fn lemma_median_reverse_involutive(a: Median)
    ensures
        a.spec_reverse().spec_reverse() == a,
{
}

/// Reversing a joined path is joining the reversed parts in the other
/// order, with the two boundary values exchanged.
pub proof fn lemma_median_reverse_compress(a: Median, b: Median, x: usize, y: usize, z: usize)
    ensures
        Median::spec_compress(a, b, x, y, z).spec_reverse()
            == Median::spec_compress(b.spec_reverse(), a.spec_reverse(), y, x, z),
{
}

/// The weight inside a path and its length do not depend on how the path is
/// split.
pub proof fn lemma_median_compress_assoc(a: Median, b: Median, c: Median, x: usize, y: usize, z: usize, w: usize)
    ensures
        ({
            let l = Median::spec_compress(Median::spec_compress(a, b, x, y, z), c, x, y, w);
            let r = Median::spec_compress(a, Median::spec_compress(b, c, z, y, w), x, y, z);
            l.inter_weight == r.inter_weight && l.length == r.length
        }),
{
}

} // verus!

verus! {

/// How many of the queries `qs` are of kind `t`.
pub open spec fn count_median_kind(qs: Seq<(usize, usize, usize, usize)>, t: usize) -> nat
    decreases qs.len(),
{
    if qs.len() == 0 {
        0
    } else {
        count_median_kind(qs.drop_last(), t) + if qs.last().0 == t { 1nat } else { 0nat }
    }
}

/// Every vertex number in a query `(kind, a, b, c)` counts from 1: `(1, a,
/// b, c)` links `a` and `b` by an edge of length `c`, `(2, a, b, _)` cuts
/// the edge between them, `(3, a, _, _)` flips the weight of `a` between 0
/// and 1 and asks for the weighted median distance sum of its tree.
pub open spec fn median_queries_ok(qs: Seq<(usize, usize, usize, usize)>) -> bool {
    forall|k: int| 0 <= k < qs.len() ==> {
        let q = #[trigger] qs[k];
        &&& 1 <= q.1
        &&& (q.0 == 1 || q.0 == 2 ==> 1 <= q.2)
    }
}

/// The running sum after the answers `s`: each answer, taken mod `n`, is
/// added mod `n`.
pub open spec fn running_sum(s: Seq<usize>, n: int) -> int
    decreases s.len(),
{
    if s.len() == 0 {
        0
    } else {
        (running_sum(s.drop_last(), n) + (s.last() as int) % n) % n
    }
}

/// The vertex (counting from 0) that query `k` names first: its number
/// counted from 1, shifted by the running sum of the answers given to the
/// queries before it, mod `n`.
pub open spec fn median_target(qs: Seq<(usize, usize, usize, usize)>, answers: Seq<usize>, n: int, k: int) -> int {
    let shift = running_sum(answers.take(count_median_kind(qs.take(k), 3) as int), n);
    ((qs[k].1 - 1) % n + shift) % n
}

/// The vertex (counting from 0) that query `k` names second, shifted as
/// the first.
pub open spec fn median_second(qs: Seq<(usize, usize, usize, usize)>, answers: Seq<usize>, n: int, k: int) -> int {
    let shift = running_sum(answers.take(count_median_kind(qs.take(k), 3) as int), n);
    ((qs[k].2 - 1) % n + shift) % n
}

/// The edge that link query `k` adds, where vertex `j` (counting from 0)
/// sits in slot `base + 2 * j`: between the two vertices it names, shifted,
/// with the length it gives.
pub open spec fn median_link_edge(qs: Seq<(usize, usize, usize, usize)>, answers: Seq<usize>, n: int, base: int, k: int) -> Edge<Median> {
    Edge {
        v: [
            Vertex { vertex: (base + 2 * median_target(qs, answers, n, k)) as usize },
            Vertex { vertex: (base + 2 * median_second(qs, answers, n, k)) as usize },
        ],
        par: None,
        me: 0,
        val: Median { inter_weight: 0, left_sum: 0, right_sum: 0, ans: 0, length: qs[k].3 },
    }
}

/// Counting the queries of a kind grows with the prefix.
proof fn lemma_count_median_mono(qs: Seq<(usize, usize, usize, usize)>, i: int, k: int, t: usize)
    requires
        0 <= i <= k <= qs.len(),
    ensures
        count_median_kind(qs.take(i), t) <= count_median_kind(qs.take(k), t),
    decreases k - i,
{
    if i < k {
        lemma_count_median_step(qs, k - 1, t);
        lemma_count_median_mono(qs, i, k - 1, t);
    }
}

/// The weight of vertex `j` (counting from 0) after the first `k` queries:
/// 1 at the start, flipped by each query of the third kind that names it.
pub open spec fn median_weight(qs: Seq<(usize, usize, usize, usize)>, answers: Seq<usize>, n: int, j: int, k: int) -> int
    decreases k,
{
    if k <= 0 {
        1
    } else {
        let w = median_weight(qs, answers, n, j, k - 1);
        if qs[k - 1].0 == 3 && median_target(qs, answers, n, k - 1) == j {
            1 - w
        } else {
            w
        }
    }
}

/// Counting the queries of a kind one query further on.
proof fn lemma_count_median_step(qs: Seq<(usize, usize, usize, usize)>, k: int, t: usize)
    requires
        0 <= k < qs.len(),
    ensures
        count_median_kind(qs.take(k + 1), t)
            == count_median_kind(qs.take(k), t) + if qs[k].0 == t { 1nat } else { 0nat },
{
    assert(qs.take(k + 1).drop_last() =~= qs.take(k));
}

/// The weights after `k` queries read only the answers given before them.
proof fn lemma_median_weight_prefix(
    qs: Seq<(usize, usize, usize, usize)>,
    a: Seq<usize>,
    b: Seq<usize>,
    n: int,
    j: int,
    k: int,
)
    requires
        0 <= k <= qs.len(),
        a.len() <= b.len(),
        a == b.take(a.len() as int),
        count_median_kind(qs.take(k), 3) <= a.len(),
    ensures
        median_weight(qs, a, n, j, k) == median_weight(qs, b, n, j, k),
        k < qs.len() ==> median_target(qs, a, n, k) == median_target(qs, b, n, k)
            && median_second(qs, a, n, k) == median_second(qs, b, n, k),
    decreases k,
{
    let c = count_median_kind(qs.take(k), 3) as int;
    assert(a.take(c) =~= b.take(c));
    if k > 0 {
        lemma_count_median_step(qs, k - 1, 3);
        lemma_median_weight_prefix(qs, a, b, n, j, k - 1);
        let c1 = count_median_kind(qs.take(k - 1), 3) as int;
        assert(a.take(c1) =~= b.take(c1));
    }
}

/// `(x + y) mod n` for `x` and `y` below `n`, without overflow.
fn add_mod(x: usize, y: usize, n: usize) -> (r: usize)
    requires
        x < n,
        y < n,
    ensures
        r == (x + y) % (n as int),
        r < n,
{
    if x >= n - y {
        let r = x - (n - y);
        assert((x + y) % (n as int) == r) by (nonlinear_arith)
            requires
                r == x + y - n,
                0 <= r < n,
        {
            vstd::arithmetic::div_mod::lemma_mod_sub_multiples_vanish((x + y) as int, n as int);
        }
        r
    } else {
        assert((x + y) % (n as int) == x + y) by (nonlinear_arith)
            requires
                0 <= x + y < n,
        {
            vstd::arithmetic::div_mod::lemma_small_mod((x + y) as nat, n as nat);
        }
        x + y
    }
}

/// Answers the queries `qs` (see `median_queries_ok`) on `n` fresh vertices
/// of weight 1 in `tree`, vertex numbers shifted by the running sum of the
/// answers so far: one answer per query of the third kind, the smaller of
/// the weighted distance sums at the two ends of the edge that `select`
/// finds for the weighted median.
pub fn yuki772_answers(tree: &mut TopTree<Median>, n: usize, qs: &Vec<(usize, usize, usize, usize)>) -> (answers: Vec<usize>)
    requires
        n >= 1,
        old(tree).inv(),
        median_queries_ok(qs@),
    ensures
        final(tree).inv(),
        answers.len() == count_median_kind(qs@, 3),
        final(tree).vs().len() == old(tree).vs().len() + 2 * n,
        forall|j: int| 0 <= j < n ==> #[trigger] final(tree).vs()[old(tree).vs().len() + 2 * j].val
            == median_weight(qs@, answers@, n as int, j, qs@.len() as int),
        forall|k: int| 0 <= k < qs@.len() && #[trigger] qs@[k].0 == 1 ==> exists|e: int|
            0 <= e < final(tree).es().len() && TopTree::<Median>::same_edge(
                #[trigger] final(tree).es()[e],
                median_link_edge(qs@, answers@, n as int, old(tree).vs().len() as int, k),
            ),
{
    let ghost base = old(tree).vs().len();
    let mut v: Vec<Vertex> = Vec::new();
    let mut i: usize = 0;
    while i < n
        invariant
            i <= n,
            v.len() == i,
            tree.inv(),
            tree.vs().len() == base + 2 * i,
            forall|j: int| 0 <= j < v.len() ==> tree.vx_ok(#[trigger] v@[j]) && tree.value_of(v@[j]) == 1
                && v@[j].vertex == base + 2 * j,
        decreases n - i,
    {
        let ghost before = *tree;
        let x = Vertex::new(tree, 1);
        proof {
            assert forall|j: int| 0 <= j < v.len() implies tree.vx_ok(#[trigger] v@[j]) && tree.value_of(v@[j]) == 1
                && v@[j].vertex == base + 2 * j by {
                assert(before.vertices@[v@[j].vertex as int].val == tree.vertices@[v@[j].vertex as int].val);
            }
        }
        v.push(x);
        i = i + 1;
    }
    let mut answers: Vec<usize> = Vec::new();
    let mut sum: usize = 0;
    let mut k: usize = 0;
    // the edge slot that each link query so far added
    let ghost mut lids: Seq<int> = Seq::empty();
    while k < qs.len()
        invariant
            0 <= k <= qs.len(),
            n >= 1,
            v.len() == n,
            sum < n,
            tree.inv(),
            median_queries_ok(qs@),
            answers.len() == count_median_kind(qs@.take(k as int), 3),
            forall|j: int| 0 <= j < v.len() ==> tree.vx_ok(#[trigger] v@[j]) && tree.value_of(v@[j]) <= 1,
            sum == running_sum(answers@, n as int),
            tree.vs().len() == base + 2 * n,
            forall|j: int| 0 <= j < v.len() ==> (#[trigger] v@[j]).vertex == base + 2 * j
                && tree.value_of(v@[j]) == median_weight(qs@, answers@, n as int, j, k as int),
            lids.len() == k,
            forall|i: int| 0 <= i < k && #[trigger] qs@[i].0 == 1 ==> 0 <= lids[i] < tree.es().len()
                && TopTree::<Median>::same_edge(tree.es()[lids[i]], median_link_edge(qs@, answers@, n as int, base as int, i)),
        decreases qs.len() - k,
    {
        let (t, a, b, c) = qs[k];
        proof {
            assert(qs@.take(k + 1).drop_last() =~= qs@.take(k as int));
            let q = qs@[k as int];
            lemma_count_median_step(qs@, k as int, 3);
        }
        let ghost before = *tree;
        let ghost ans0 = answers@;
        let ghost mut newlid: int = -1;
        if t == 1 {
            let a = add_mod((a - 1) % n, sum, n);
            let b = add_mod((b - 1) % n, sum, n);
            proof {
                assert(ans0.take(ans0.len() as int) =~= ans0);
                assert(a == median_target(qs@, ans0, n as int, k as int));
                assert(b == median_second(qs@, ans0, n as int, k as int));
            }
            let r = link(tree, v[a], v[b], Median::new(c));
            proof {
                newlid = r as int;
                assert(v@[a as int] == Vertex { vertex: (base + 2 * median_target(qs@, ans0, n as int, k as int)) as usize });
                assert(v@[b as int] == Vertex { vertex: (base + 2 * median_second(qs@, ans0, n as int, k as int)) as usize });
                assert(TopTree::<Median>::same_edge(tree.es()[r as int], median_link_edge(qs@, ans0, n as int, base as int, k as int)));
                assert forall|j: int| 0 <= j < tree.vertices.len() implies (#[trigger] tree.vertices@[j]).handle is Some by {
                    assert(before.vertices@[j].handle is Some);
                }
                assert forall|j: int| 0 <= j < v.len() implies tree.vx_ok(#[trigger] v@[j]) && tree.value_of(v@[j]) <= 1 by {
                    assert(before.vertices@[v@[j].vertex as int].val == tree.vertices@[v@[j].vertex as int].val);
                }
                assert forall|j: int| 0 <= j < v.len() implies (#[trigger] v@[j]).vertex == base + 2 * j
                    && tree.value_of(v@[j]) == median_weight(qs@, answers@, n as int, j, k + 1) by {
                    assert(before.vertices@[v@[j].vertex as int].val == tree.vertices@[v@[j].vertex as int].val);
                }
            }
        } else if t == 2 {
            let a = add_mod((a - 1) % n, sum, n);
            let b = add_mod((b - 1) % n, sum, n);
            // a cut must name an edge; the queries promise one
            if tree.find_edge(v[a], v[b]).is_some() {
                cut(tree, v[a], v[b]);
            }
            proof {
                assert(tree.edges_kept(&before));
                assert forall|j: int| 0 <= j < v.len() implies tree.vx_ok(#[trigger] v@[j]) && tree.value_of(v@[j]) <= 1 by {
                    assert(before.vertices@[v@[j].vertex as int].val == tree.vertices@[v@[j].vertex as int].val);
                }
                assert forall|j: int| 0 <= j < v.len() implies (#[trigger] v@[j]).vertex == base + 2 * j
                    && tree.value_of(v@[j]) == median_weight(qs@, answers@, n as int, j, k + 1) by {
                    assert(before.vertices@[v@[j].vertex as int].val == tree.vertices@[v@[j].vertex as int].val);
                }
            }
        } else if t == 3 {
            let a = add_mod((a - 1) % n, sum, n);
            proof {
                assert(ans0.take(ans0.len() as int) =~= ans0);
                assert(a == median_target(qs@, ans0, n as int, k as int));
            }
            let mut va = v[a];
            let val = va.value(tree);
            va.value_set(tree, 1 - val);
            let ghost flipped = *tree;
            proof {
                assert(flipped.edges_kept(&before));
            }
            let (x, y) = select(tree, va, |p: Median, q: Median, pv: usize, qv: usize, mv: usize| -> (d: usize)
                ensures
                    d < 2,
                {
                    if cap_add(cap_add(p.inter_weight, pv), mv) >= cap_add(cap_add(q.inter_weight, qv), mv) {
                        0
                    } else {
                        1
                    }
                });
            let ghost selected = *tree;
            let fx = expose(tree, x).fold(tree).ans;
            let ghost exposed = *tree;
            let fy = expose(tree, y).fold(tree).ans;
            proof {
                TopTree::lemma_edges_kept_trans(&before, &flipped, &selected);
                TopTree::lemma_edges_kept_trans(&before, &selected, &exposed);
                TopTree::lemma_edges_kept_trans(&before, &exposed, tree);
            }
            let ans = if fx <= fy { fx } else { fy };
            sum = add_mod(sum, ans % n, n);
            answers.push(ans);
            proof {
                assert forall|j: int| 0 <= j < v.len() implies tree.vx_ok(#[trigger] v@[j]) && tree.value_of(v@[j]) <= 1 by {
                    let w = v@[j].vertex as int;
                    if w != va.vertex as int {
                        assert(before.vertices@[w].val == flipped.vertices@[w].val);
                    }
                    assert(flipped.vertices@[w].val == tree.vertices@[w].val);
                }
                assert(answers@.drop_last() =~= ans0);
                assert(answers@.take(ans0.len() as int) =~= ans0);
                assert forall|j: int| 0 <= j < v.len() implies (#[trigger] v@[j]).vertex == base + 2 * j
                    && tree.value_of(v@[j]) == median_weight(qs@, answers@, n as int, j, k + 1) by {
                    lemma_median_weight_prefix(qs@, ans0, answers@, n as int, j, k as int);
                    let w = v@[j].vertex as int;
                    if w != va.vertex as int {
                        assert(before.vertices@[w].val == flipped.vertices@[w].val);
                    }
                    assert(flipped.vertices@[w].val == tree.vertices@[w].val);
                }
            }
        }
        proof {
            assert(tree.edges_kept(&before));
            assert(ans0 =~= answers@.take(ans0.len() as int));
            assert forall|i: int| 0 <= i < k && #[trigger] qs@[i].0 == 1 implies 0 <= lids[i] < tree.es().len()
                && TopTree::<Median>::same_edge(tree.es()[lids[i]], median_link_edge(qs@, answers@, n as int, base as int, i)) by {
                lemma_count_median_mono(qs@, i, k as int, 3);
                lemma_median_weight_prefix(qs@, ans0, answers@, n as int, 0, i);
                TopTree::<Median>::lemma_same_edge_trans(
                    tree.es()[lids[i]],
                    before.es()[lids[i]],
                    median_link_edge(qs@, ans0, n as int, base as int, i),
                );
            }
            if t == 1 {
                lemma_median_weight_prefix(qs@, ans0, answers@, n as int, 0, k as int);
            }
            lids = lids.push(newlid);
        }
        k = k + 1;
    }
    proof {
        assert forall|i: int| 0 <= i < qs@.len() && #[trigger] qs@[i].0 == 1 implies exists|e: int|
            0 <= e < tree.es().len() && TopTree::<Median>::same_edge(
                #[trigger] tree.es()[e],
                median_link_edge(qs@, answers@, n as int, base as int, i),
            ) by {
            assert(0 <= lids[i] < tree.es().len());
            assert(TopTree::<Median>::same_edge(tree.es()[lids[i]], median_link_edge(qs@, answers@, n as int, base as int, i)));
        }
        assert forall|j: int| 0 <= j < n implies #[trigger] tree.vs()[base + 2 * j].val
            == median_weight(qs@, answers@, n as int, j, qs@.len() as int) by {
            assert(v@[j].vertex == base + 2 * j);
        }
    }
    proof {
        assert(qs@.take(qs.len() as int) =~= qs@);
    }
    answers
}

} // verus!
