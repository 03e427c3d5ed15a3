use vstd::prelude::*;
use crate::node::{Cluster, TopTree, Vertex, CompNode, RakeNode};
use crate::expose::{expose, soft_expose};
use vstd::set_lib::{set_int_range, lemma_int_range, lemma_len_subset};

verus! {

/// A choice function that may be called on any clusters and always names
/// one of two sides.
pub open spec fn chooses_side<T: Cluster, F: Fn(T, T, T::V, T::V, T::V) -> usize>(sel: F) -> bool {
    &&& forall|a: T, b: T, x: T::V, y: T::V, z: T::V| #[trigger] sel.requires((a, b, x, y, z))
    &&& forall|a: T, b: T, x: T::V, y: T::V, z: T::V, d: usize|
        #[trigger] sel.ensures((a, b, x, y, z), d) ==> d < 2
}

/// Walks down the rake tree `rake`, letting `sel` choose at each rake node
/// between its left member and its right member raked onto the cluster
/// `right` that has been passed over so far, and returns the path cluster
/// at the leaf it reaches.
fn select_rake<T: Cluster, F: Fn(T, T, T::V, T::V, T::V) -> usize>(
    tree: &mut TopTree<T>,
    rake: RakeNode,
    sel: &F,
    right: &mut (T, T::V, T::V),
) -> (r: Option<CompNode>)
    requires
        old(tree).wf(),
        old(tree).rake_ok(rake),
        chooses_side(*sel),
    ensures
        final(tree).wf(),
        final(tree).same_sizes(old(tree)),
        final(tree).links_eq(old(tree)),
        r matches Some(c) ==> final(tree).comp_ok(c),
        old(tree).shaped() ==> final(tree).shaped(),
        old(tree).shaped() ==> (r matches Some(c) ==> (old(tree).rank@)(RakeNode::Leaf(c)) <= (old(tree).rank@)(rake)),
        old(tree).shaped() ==> (r matches Some(c) && old(tree).in_sub(RakeNode::Leaf(c), rake)),
        rake matches RakeNode::Leaf(c) ==> r == Some(c),
{
    let ghost start = *tree;
    let mut cur = rake;
    cur.push(tree);
    let mut fuel = tree.walk_bound();
    // the rake nodes passed so far, each ranked above `cur`
    let ghost mut passed: Set<int> = Set::empty();
    let ghost budget = fuel as nat;
    while fuel > 0
        invariant_except_break
            start.shaped() ==> passed.len() + fuel == budget,
        invariant
            budget >= start.rakes.len(),
            passed.finite(),
            start.shaped() ==> forall|i: int| #[trigger] passed.contains(i) ==> 0 <= i < start.rakes.len()
                && (start.rank@)(RakeNode::Node(i as usize)) > (start.rank@)(cur),
            rake matches RakeNode::Leaf(_) ==> cur == rake,
            tree.wf(),
            tree.same_sizes(&start),
            tree.links_eq(&start),
            tree.rake_ok(cur),
            chooses_side(*sel),
            start == *old(tree),
            start.shaped() ==> tree.shaped(),
            start.shaped() ==> start.in_sub(cur, rake),
        ensures
            start.shaped() ==> passed.len() == budget,
        decreases fuel,
    {
        fuel = fuel - 1;
        proof {
            if start.shaped() {
                start.lemma_in_sub_rank(cur, rake);
            }
        }
        let r = match cur {
            RakeNode::Node(r) => r,
            RakeNode::Leaf(comp) => return Some(comp),
        };
        proof {
            passed = passed.insert(r as int);
        }
        let c0 = tree.rake_at(r).ch[0];
        let c1 = tree.rake_at(r).ch[1];
        c0.push(tree);
        c0.fix(tree);
        c1.push(tree);
        c1.fix(tree);
        let c0 = tree.rake_at(r).ch[0];
        let c1 = tree.rake_at(r).ch[1];
        let r0 = c1.endpoints(tree, 0).value(tree);
        let r1 = c1.endpoints(tree, 1).value(tree);
        let rf = T::rake(c1.fold(tree), right.0, r0, right.1, r1);
        let dir = sel(c0.fold(tree), rf, c0.endpoints(tree, 0).value(tree), r0, c0.endpoints(tree, 1).value(tree));
        cur = tree.rake_at(r).ch[dir];
        proof {
            if start.shaped() {
                assert(start.down_ok_rake(r as int));
                assert(start.rake_wf(start.rakes@[r as int]));
                start.lemma_in_sub_child(cur, rake);
                start.lemma_up_ok_rake(cur);
            }
        }
        let other = tree.rake_at(r).ch[1 - dir];
        let o0 = other.endpoints(tree, 0).value(tree);
        let o1 = other.endpoints(tree, 1).value(tree);
        *right = (T::rake(other.fold(tree), right.0, o0, right.1, o1), o0, o1);
        cur.push(tree);
    }
    proof {
        if start.shaped() {
            start.lemma_in_sub_rank(cur, rake);
            if let RakeNode::Node(i) = cur {
                // `budget` rake nodes were passed, all ranked above `i`
                lemma_int_range(0, start.rakes.len() as int);
                lemma_len_subset(passed.insert(i as int), set_int_range(0, start.rakes.len() as int));
            }
        }
    }
    match cur {
        RakeNode::Leaf(comp) => Some(comp),
        RakeNode::Node(_) => None,
    }
}

/// Searches the tree of `v` for an edge: at each compress node `sel` is
/// given the cluster on the left of the middle vertex (with the rake tree
/// hanging from it) and the cluster on the right, together with the values
/// of the left end, the right end and the middle vertex, and names the side
/// to descend into. Returns the two ends of the edge reached, after
/// exposing them.
pub fn select<T: Cluster, F: Fn(T, T, T::V, T::V, T::V) -> usize>(
    tree: &mut TopTree<T>,
    v: Vertex,
    sel: F,
) -> (r: (Vertex, Vertex))
    requires
        old(tree).inv(),
        old(tree).vx_ok(v),
        chooses_side(sel),
    ensures
        final(tree).inv(),
        final(tree).same_sizes(old(tree)),
        final(tree).vx_ok(r.0),
        final(tree).vx_ok(r.1),
        old(tree).shaped() ==> final(tree).shaped(),
        final(tree).edges_kept(old(tree)),
        old(tree).shaped() ==> exists|e: int|
            0 <= e < final(tree).es().len() && #[trigger] final(tree).es()[e].v == [r.0, r.1],
{
    let ghost first = *tree;
    let mut node = expose(tree, v);
    let ghost start = *tree;
    let mut left: Option<(T, T::V, T::V)> = None;
    let mut right: Option<(T, T::V, T::V)> = None;
    node.push(tree);
    let mut fuel = tree.walk_bound();
    // the compress nodes passed so far, each ranked above `node`
    let ghost mut passed: Set<int> = Set::empty();
    let ghost budget = fuel as nat;
    while fuel > 0
        invariant_except_break
            first.shaped() ==> passed.len() + fuel == budget,
        invariant
            tree.inv(),
            tree.same_sizes(&start),
            tree.links_eq(&start),
            tree.comp_ok(node),
            chooses_side(sel),
            first.shaped() ==> start.shaped(),
            first.shaped() ==> tree.shaped(),
            budget >= start.comps.len(),
            passed.finite(),
            first.shaped() ==> forall|i: int| #[trigger] passed.contains(i) ==> 0 <= i < start.comps.len()
                && (start.rank@)(RakeNode::Leaf(CompNode::Node(i as usize))) > (start.rank@)(RakeNode::Leaf(node)),
        ensures
            node is Leaf || (first.shaped() ==> passed.len() == budget),
        decreases fuel,
    {
        fuel = fuel - 1;
        let n = match node {
            CompNode::Node(n) => n,
            CompNode::Leaf(_) => break,
        };
        proof {
            passed = passed.insert(n as int);
            if first.shaped() {
                let m = start.comps@[n as int];
                assert(start.down_ok_comp(n as int));
                assert(start.comp_wf(m, n as int));
                start.lemma_up_ok_comp(m.ch[0]);
                start.lemma_up_ok_comp(m.ch[1]);
                if let Some(rk) = m.rake {
                    start.lemma_up_ok_rake(rk);
                }
            }
        }
        let c0 = tree.comp(n).ch[0];
        c0.push(tree);
        c0.fix(tree);
        let c1 = tree.comp(n).ch[1];
        c1.push(tree);
        c1.fix(tree);
        if let Some(r) = tree.comp(n).rake {
            r.push(tree);
            r.fix(tree);
        }
        let a = tree.comp(n).ch[0];
        let b = tree.comp(n).ch[1];
        let r = tree.comp(n).rake;

        let a_end = a.endpoints(tree, 1).value(tree);
        let (af, a0, a1) = match left {
            Some((lf, l0, l1)) => (T::compress(lf, a.fold(tree), l0, a_end, l1), l0, a_end),
            None => (a.fold(tree), a.endpoints(tree, 0).value(tree), a_end),
        };

        let b_start = b.endpoints(tree, 0).value(tree);
        let (bf, b0, b1) = match right {
            Some((rf, _r0, r1)) => (T::compress(b.fold(tree), rf, b_start, r1, b.endpoints(tree, 1).value(tree)), b_start, r1),
            None => (b.fold(tree), b_start, b.endpoints(tree, 1).value(tree)),
        };
        let with_rake = match r {
            Some(r) => {
                let rv = r.endpoints(tree, 0).value(tree);
                T::rake(af, r.fold(tree), a0, rv, a1)
            },
            None => af,
        };
        let dir = sel(with_rake, bf, a0, b1, a1);
        node = if dir == 0 {
            let mut rbf = bf;
            rbf.reverse();
            let rb0 = b1;
            let rb1 = b0;
            match r {
                Some(rk) => {
                    let r0 = rk.endpoints(tree, 0).value(tree);
                    let r1 = rk.endpoints(tree, 1).value(tree);
                    let mut rf = T::rake(rk.fold(tree), rbf, r0, rb0, r1);
                    let dir = sel(af, rf, a0, r0, a1);
                    if dir == 0 {
                        rf.reverse();
                        right = Some((rf, r1, r0));
                        tree.comp(n).ch[0]
                    } else {
                        let mut acc = match left {
                            Some((lf, l0, l1)) => (T::rake(lf, rbf, l0, rb0, l1), l0, l1),
                            None => (rbf, rb0, rb1),
                        };
                        left = None;
                        let found = select_rake(tree, rk, &sel, &mut acc);
                        right = Some(acc);
                        match found {
                            Some(c) => c,
                            None => tree.comp(n).ch[0],
                        }
                    }
                },
                None => {
                    // with no rake tree the left side is the path cluster itself
                    right = Some((bf, b0, b1));
                    tree.comp(n).ch[0]
                },
            }
        } else {
            left = Some((af, a0, a1));
            tree.comp(n).ch[1]
        };
        node.push(tree);
    }
    proof {
        if first.shaped() {
            if let CompNode::Node(n) = node {
                // `budget` compress nodes were passed, all ranked above `n`
                lemma_int_range(0, start.comps.len() as int);
                lemma_len_subset(passed.insert(n as int), set_int_range(0, start.comps.len() as int));
            }
        }
    }
    let x = node.endpoints(tree, 0);
    let y = node.endpoints(tree, 1);
    let ghost walked = *tree;
    proof {
        assert(walked.edges_kept(&start));
        TopTree::lemma_edges_kept_trans(&first, &start, &walked);
    }
    soft_expose(tree, x, y);
    proof {
        TopTree::lemma_edges_kept_trans(&first, &walked, tree);
    }
    let r = (node.endpoints(tree, 0), node.endpoints(tree, 1));
    proof {
        if first.shaped() {
            if let CompNode::Leaf(e) = node {
                assert(tree.es()[e as int].v == [r.0, r.1]);
            }
        }
    }
    r
}

} // verus!
