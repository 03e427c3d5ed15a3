use vstd::prelude::*;
use crate::node::{Cluster, TopTree, Vertex, CompNode, RakeNode, ParentNode, Edge, Compress, Rake};
use crate::expose::expose_raw;

verus! {

/// Joins the trees of `v` and `u` by a new edge from `v` to `u` that
/// carries `weight`, and returns the edge. The two vertices must lie in
/// different trees. A vertex with no edge yet becomes a tree of that one
/// edge; otherwise the new edge is hung below the exposed top clusters of
/// both trees.
pub fn link<T: Cluster>(tree: &mut TopTree<T>, v: Vertex, u: Vertex, weight: T) -> (r: usize)
    requires
        old(tree).wf(),
        old(tree).vx_ok(v),
        old(tree).vx_ok(u),
    ensures
        final(tree).wf(),
        final(tree).grows_from(old(tree)),
        final(tree).vs().len() == old(tree).vs().len(),
        r == old(tree).es().len(),
        final(tree).es().len() == old(tree).es().len() + 1,
        final(tree).handle_of(v) is Some,
        final(tree).handle_of(u) is Some,
        final(tree).edges_kept(old(tree)),
        TopTree::<T>::same_edge(final(tree).es()[r as int], Edge { v: [v, u], par: None, me: r, val: weight }),
        old(tree).handle_of(v) is None && old(tree).handle_of(u) is None ==> {
            &&& final(tree).es()[r as int] == (Edge { v: [v, u], par: None, me: r, val: weight })
            &&& final(tree).handle_of(v) == Some(CompNode::Leaf(r))
            &&& final(tree).handle_of(u) == Some(CompNode::Leaf(r))
            &&& final(tree).cs() == old(tree).cs()
            &&& final(tree).rks() == old(tree).rks()
            &&& (old(tree).shaped() ==> final(tree).shaped())
        },
{
    let nnu = u.handle(tree);
    let nnv = v.handle(tree);
    if nnv.is_none() && nnu.is_none() {
        let e = Edge::new(tree, v, u, weight);
        return e;
    }
    let ghost start = *tree;
    proof {
        assert(start.handle_at_end(v.vertex as int, start.vertices@[v.vertex as int].handle));
    }
    let e = Edge::new(tree, v, u, weight);
    let ghost added = *tree;
    let left = match nnu {
        None => CompNode::Leaf(e),
        Some(uu) => link_below(tree, e, u, uu),
    };
    proof {
        assert(added.edges_kept(&start));
        TopTree::lemma_edges_kept_trans(&start, &added, tree);
    }
    let ghost below = *tree;
    match nnv {
        None => {},
        Some(vv) => link_above(tree, v, vv, left),
    }
    proof {
        TopTree::lemma_edges_kept_trans(&added, &below, tree);
        TopTree::lemma_edges_kept_trans(&start, &added, tree);
    }
    e
}

/// Hangs the fresh edge `e` from `u`, whose tree has top cluster handle
/// `uu`, and returns the path cluster that now starts with `e`.
#[verifier::spinoff_prover]
#[verifier::rlimit(50)]
fn link_below<T: Cluster>(tree: &mut TopTree<T>, e: usize, u: Vertex, uu: CompNode) -> (r: CompNode)
    requires
        old(tree).wf(),
        old(tree).vx_ok(u),
        e < old(tree).es().len(),
        old(tree).comp_ok(uu),
    ensures
        final(tree).wf(),
        final(tree).grows_from(old(tree)),
        final(tree).vs().len() == old(tree).vs().len(),
        final(tree).es().len() == old(tree).es().len(),
        final(tree).comp_ok(r),
        final(tree).edges_kept(old(tree)),
        match r {
            CompNode::Node(i) => final(tree).cs()[i as int].ch[0] == CompNode::Leaf(e),
            CompNode::Leaf(x) => x == e,
        },
{
    let uu = expose_raw(tree, uu);
    let ghost exposed = *tree;
    if uu.endpoints(tree, 1) == u {
        let bound = tree.comps.len();
        uu.reverse(tree, bound);
        uu.push(tree);
    }
    let ghost turned = *tree;
    proof {
        TopTree::lemma_edges_kept_trans(old(tree), &exposed, &turned);
    }
    if uu.endpoints(tree, 0) == u {
        let nu = Compress::new(tree, CompNode::Leaf(e), uu);
        CompNode::Leaf(e).set_parent(tree, Some(ParentNode::Compress(nu)));
        Edge::fix(tree, e);
        uu.set_parent(tree, Some(ParentNode::Compress(nu)));
        uu.fix(tree);
        CompNode::Node(nu)
    } else if let CompNode::Node(nu) = uu {
        let left_ch = tree.comp(nu).ch[0];
        tree.set_comp_child(nu, 0, CompNode::Leaf(e));
        CompNode::Leaf(e).set_parent(tree, Some(ParentNode::Compress(nu)));
        Edge::fix(tree, e);
        let beta = tree.comp(nu).rake;
        let rake = match beta {
            Some(b) => {
                let rake = Rake::new(tree, b, RakeNode::Leaf(left_ch));
                b.set_parent(tree, Some(ParentNode::Rake(rake)));
                left_ch.set_parent(tree, Some(ParentNode::Rake(rake)));
                left_ch.fix(tree);
                RakeNode::Node(rake)
            },
            None => RakeNode::Leaf(left_ch),
        };
        tree.set_comp_rake(nu, Some(rake));
        rake.set_parent(tree, Some(ParentNode::Compress(nu)));
        rake.fix(tree);
        Compress::fix(tree, nu);
        CompNode::Node(nu)
    } else {
        // an exposed tree with more than one edge has a compress node on top
        CompNode::Leaf(e)
    }
}

/// Puts the path cluster `left`, which starts at `v`'s new edge, below the
/// top of `v`'s tree, whose top cluster handle is `vv`: `left` becomes the
/// right side of a compress node.
fn link_above<T: Cluster>(tree: &mut TopTree<T>, v: Vertex, vv: CompNode, left: CompNode)
    requires
        old(tree).wf(),
        old(tree).vx_ok(v),
        old(tree).comp_ok(vv),
        old(tree).comp_ok(left),
        vv matches CompNode::Leaf(x) ==> old(tree).es()[x as int].v[0] == v || old(tree).es()[x as int].v[1] == v,
    ensures
        final(tree).wf(),
        final(tree).grows_from(old(tree)),
        final(tree).vs().len() == old(tree).vs().len(),
        final(tree).es().len() == old(tree).es().len(),
        final(tree).edges_kept(old(tree)),
        exists|i: int| 0 <= i < final(tree).cs().len() && #[trigger] final(tree).cs()[i].ch[1] == left,
{
    let ghost handle = vv;
    let vv = expose_raw(tree, vv);
    let ghost exposed = *tree;
    if vv.endpoints(tree, 0) == v {
        let bound = tree.comps.len();
        vv.reverse(tree, bound);
        vv.push(tree);
    }
    let ghost turned = *tree;
    proof {
        TopTree::lemma_edges_kept_trans(old(tree), &exposed, &turned);
        // an exposed edge is the handle itself, and still ends at `v`
        if let CompNode::Leaf(x) = vv {
            assert(vv == handle);
            assert(tree.endpoint_of(vv, 1) == v);
        }
    }
    if vv.endpoints(tree, 1) == v {
        hang_on_top(tree, vv, left);
    } else if let CompNode::Node(nv) = vv {
        hang_right(tree, nv, left);
    }
    proof {
        TopTree::lemma_edges_kept_trans(old(tree), &turned, tree);
    }
}

/// Puts a new compress node on top of the exposed cluster `vv` and the path
/// cluster `left`, which becomes its right side.
fn hang_on_top<T: Cluster>(tree: &mut TopTree<T>, vv: CompNode, left: CompNode)
    requires
        old(tree).wf(),
        old(tree).comp_ok(vv),
        old(tree).comp_ok(left),
    ensures
        final(tree).wf(),
        final(tree).grows_from(old(tree)),
        final(tree).vs().len() == old(tree).vs().len(),
        final(tree).es().len() == old(tree).es().len(),
        final(tree).edges_kept(old(tree)),
        exists|i: int| 0 <= i < final(tree).cs().len() && #[trigger] final(tree).cs()[i].ch[1] == left,
{
    let top = Compress::new(tree, vv, left);
    vv.set_parent(tree, Some(ParentNode::Compress(top)));
    vv.fix(tree);
    left.set_parent(tree, Some(ParentNode::Compress(top)));
    left.fix(tree);
    Compress::fix(tree, top);
    assert(tree.cs()[top as int].ch[1] == left);
}

/// Makes the path cluster `left` the right side of the exposed compress
/// node `nv`; its former right side joins the rake tree of `nv`.
#[verifier::spinoff_prover]
#[verifier::rlimit(60)]
fn hang_right<T: Cluster>(tree: &mut TopTree<T>, nv: usize, left: CompNode)
    requires
        old(tree).wf(),
        nv < old(tree).cs().len(),
        old(tree).comp_ok(left),
    ensures
        final(tree).wf(),
        final(tree).grows_from(old(tree)),
        final(tree).vs().len() == old(tree).vs().len(),
        final(tree).es().len() == old(tree).es().len(),
        final(tree).edges_kept(old(tree)),
        final(tree).cs()[nv as int].ch[1] == left,
{
    let right_ch = tree.comp(nv).ch[1];
    let bound = tree.comps.len();
    right_ch.reverse(tree, bound);
    right_ch.push(tree);
    let ghost turned = *tree;
    tree.set_comp_child(nv, 1, left);
    left.set_parent(tree, Some(ParentNode::Compress(nv)));
    left.fix(tree);
    let alpha = tree.comp(nv).rake;
    let rake = match alpha {
        Some(a) => {
            let rake = Rake::new(tree, a, RakeNode::Leaf(right_ch));
            a.set_parent(tree, Some(ParentNode::Rake(rake)));
            a.fix(tree);
            right_ch.set_parent(tree, Some(ParentNode::Rake(rake)));
            right_ch.fix(tree);
            Rake::fix(tree, rake);
            RakeNode::Node(rake)
        },
        None => RakeNode::Leaf(right_ch),
    };
    tree.set_comp_rake(nv, Some(rake));
    rake.set_parent(tree, Some(ParentNode::Compress(nv)));
    rake.fix(tree);
    Compress::fix(tree, nv);
    proof {
        TopTree::lemma_edges_kept_trans(old(tree), &turned, tree);
    }
}

} // verus!
