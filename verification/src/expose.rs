use vstd::prelude::*;
use crate::node::{Cluster, TopTree, Vertex, CompNode, RakeNode, ParentNode, Compress, Rake};
use crate::parent_dir::{parent_dir_comp, parent_dir_comp_guard, parent_dir_rake};
use crate::splay::{splay_comp, splay_rake};

verus! {

/// Brings the path cluster `node` up to the top of its tree: at each level
/// it is splayed to the top of its compress tree and then swapped with a
/// side of the compress node above it, so that its boundary vertex becomes
/// a boundary of the whole tree. Stops below a guarded node. Returns the
/// cluster that ends up on top.
pub fn expose_raw<T: Cluster>(tree: &mut TopTree<T>, node: CompNode) -> (r: CompNode)
    requires
        old(tree).wf(),
        old(tree).comp_ok(node),
    ensures
        final(tree).wf(),
        final(tree).same_sizes(old(tree)),
        final(tree).comp_ok(r),
        final(tree).edges_kept(old(tree)),
        r is Leaf ==> r == node,
        node is Node ==> r == node,
        old(tree).shaped() ==> final(tree).shaped(),
{
    let ghost start = *tree;
    let mut cur = node;
    let mut fuel = tree.walk_bound();
    while fuel > 0
        invariant
            tree.wf(),
            tree.same_sizes(&start),
            tree.comp_ok(cur),
            start.shaped() ==> tree.shaped(),
            tree.edges_kept(&start),
            cur is Leaf ==> cur == node,
            node is Node ==> cur == node,
        decreases fuel,
    {
        fuel = fuel - 1;
        let ghost s0 = *tree;
        if let CompNode::Node(comp) = cur {
            splay_comp(tree, comp);
        }
        let ghost s1 = *tree;
        proof {
            TopTree::lemma_edges_kept_trans(&start, &s0, tree);
        }
        // the root of the rake tree of `n` through which `cur` comes up
        let ghost mut top = RakeNode::Leaf(cur);
        let ghost mut from_rake = false;
        let n = match cur.parent(tree) {
            None => break,
            Some(ParentNode::Rake(par)) => {
                Rake::push(tree, par);
                proof {
                    if start.shaped() {
                        s1.lemma_up_ok_comp(cur);
                        assert(s1.in_sub(RakeNode::Node(par), RakeNode::Node(par)));
                        s1.lemma_in_sub_child(RakeNode::Leaf(cur), RakeNode::Node(par));
                        assert(s1.in_sub(RakeNode::Leaf(cur), RakeNode::Leaf(cur)));
                    }
                }
                splay_rake(tree, par);
                proof {
                    TopTree::lemma_edges_kept_trans(&start, &s1, tree);
                }
                if let Some(ParentNode::Compress(n)) = tree.rake_at(par).par {
                    proof {
                        top = RakeNode::Node(par);
                        from_rake = true;
                    }
                    n
                } else {
                    // a rake tree always hangs from a compress node
                    break;
                }
            },
            Some(ParentNode::Compress(n)) => {
                Compress::push(tree, n);
                if tree.comp(n).guard && parent_dir_comp_guard(tree, cur).is_some() {
                    break;
                }
                // below `n` and none of its sides: the only leaf of its rake tree
                if tree.comp(n).rake != Some(RakeNode::Leaf(cur)) {
                    break;
                }
                n
            },
        };
        let ghost s2 = *tree;
        proof {
            if start.shaped() && from_rake {
                let nk = RakeNode::Leaf(CompNode::Node(n));
                assert(s2.in_sub(RakeNode::Leaf(cur), top));
                s2.lemma_up_ok_rake(top);
                assert(s2.in_sub(nk, nk));
                s2.lemma_in_sub_child(top, nk);
            }
        }
        splay_comp(tree, n);
        proof {
            TopTree::lemma_edges_kept_trans(&start, &s2, tree);
            if start.shaped() && from_rake {
                assert(tree.in_sub(RakeNode::Leaf(cur), top));
            }
        }

        let dir = match parent_dir_comp_guard(tree, CompNode::Node(n)) {
            Some((dir, _)) => dir,
            None => 0,
        };
        if dir == 1 {
            let c = tree.comp(n).ch[dir];
            let bound = tree.comps.len();
            let ghost b = *tree;
            c.reverse(tree, bound);
            proof {
                TopTree::lemma_edges_kept_trans(&start, &b, tree);
                if start.shaped() && from_rake {
                    TopTree::lemma_in_sub_links_perm(&b, tree, RakeNode::Leaf(cur), top);
                }
                assert(tree.comps@[n as int].rake == b.comps@[n as int].rake);
            }
            let c = tree.comp(n).ch[dir];
            c.push(tree);
            let ghost b = *tree;
            cur.reverse(tree, bound);
            proof {
                TopTree::lemma_edges_kept_trans(&start, &b, tree);
                if start.shaped() && from_rake {
                    TopTree::lemma_in_sub_links_perm(&b, tree, RakeNode::Leaf(cur), top);
                }
                assert(tree.comps@[n as int].rake == b.comps@[n as int].rake);
            }
            cur.push(tree);
        }
        if let Some((n_dir, rake)) = parent_dir_rake(tree, RakeNode::Leaf(cur)) {
            proof {
                if start.shaped() {
                    // `cur` hangs in a rake node, so it came up through the rake tree
                    assert(tree.down_ok_comp(n as int));
                    tree.lemma_in_sub_step(RakeNode::Leaf(cur), top);
                }
            }
            let ghost b = *tree;
            swap_into_rake(tree, n, dir, cur, rake, n_dir, Ghost(top), Ghost(start.shaped()));
            let ghost b2 = *tree;
            splay_rake(tree, rake);
            proof {
                TopTree::lemma_edges_kept_trans(&start, &b, &b2);
                TopTree::lemma_edges_kept_trans(&start, &b2, tree);
            }
        } else {
            if tree.comp(n).rake != Some(RakeNode::Leaf(cur)) {
                // `cur` came up through a rake node, which always holds it
                break;
            }
            let ghost b = *tree;
            swap_with_rake(tree, n, dir, cur);
            proof {
                TopTree::lemma_edges_kept_trans(&start, &b, tree);
            }
        }
        if let CompNode::Leaf(_) = cur {
            cur = CompNode::Node(n);
        }
    }
    cur
}

/// Side `dir` of compress node `n` and the path cluster `node`, which hangs
/// on side `n_dir` of rake node `rake` in the rake tree `top` of `n`, trade
/// places, and the moved side with all below it is ranked under `rake`.
fn swap_into_rake<T: Cluster>(
    tree: &mut TopTree<T>,
    n: usize,
    dir: usize,
    node: CompNode,
    rake: usize,
    n_dir: usize,
    Ghost(top): Ghost<RakeNode>,
    Ghost(keep_shape): Ghost<bool>,
)
    requires
        old(tree).wf(),
        n < old(tree).cs().len(),
        dir < 2,
        n_dir < 2,
        rake < old(tree).rks().len(),
        old(tree).comp_ok(node),
        old(tree).rks()[rake as int].ch[n_dir as int] == RakeNode::Leaf(node),
        keep_shape ==> old(tree).shaped() && old(tree).cs()[n as int].rake == Some(top)
            && old(tree).in_sub(RakeNode::Node(rake), top),
    ensures
        final(tree).wf(),
        final(tree).same_sizes(old(tree)),
        final(tree).swapped_in_rake(old(tree), n, dir as int, node, rake, n_dir as int),
        final(tree).edges_kept(old(tree)),
        final(tree).rank@ == old(tree).sink_rank(RakeNode::Leaf(old(tree).cs()[n as int].ch[dir as int]), RakeNode::Node(rake)),
        keep_shape ==> final(tree).shaped(),
{
    let nch = tree.comp(n).ch[dir];
    nch.push(tree);
    Rake::push(tree, rake);
    let ghost s4 = *tree;
    proof {
        if keep_shape {
            TopTree::lemma_swap_in_rake_facts(&s4, n, dir as int, node, rake, n_dir as int, top);
        }
    }

    tree.set_rake_child(rake, n_dir, RakeNode::Leaf(nch));
    nch.set_parent(tree, Some(ParentNode::Rake(rake)));
    tree.set_comp_child(n, dir, node);
    node.set_parent(tree, Some(ParentNode::Compress(n)));
    tree.rank = Ghost(s4.sink_rank(RakeNode::Leaf(nch), RakeNode::Node(rake)));
    let ghost swapped = *tree;
    proof {
        assert(tree.swapped_in_rake(&s4, n, dir as int, node, rake, n_dir as int));
        if keep_shape {
            TopTree::lemma_swap_in_rake_shaped(&s4, tree, n, dir as int, node, rake, n_dir as int, top);
        }
    }

    nch.fix(tree);
    let ghost f1 = *tree;
    Rake::fix(tree, rake);
    let ghost f2 = *tree;
    node.fix(tree);
    let ghost f3 = *tree;
    Compress::fix(tree, n);
    proof {
        TopTree::lemma_swapped_in_rake_links_eq(&s4, &swapped, &f1, n, dir as int, node, rake, n_dir as int);
        TopTree::lemma_swapped_in_rake_links_eq(&s4, &f1, &f2, n, dir as int, node, rake, n_dir as int);
        TopTree::lemma_swapped_in_rake_links_eq(&s4, &f2, &f3, n, dir as int, node, rake, n_dir as int);
        TopTree::lemma_swapped_in_rake_links_eq(&s4, &f3, tree, n, dir as int, node, rake, n_dir as int);
    }
}

/// Side `dir` of compress node `n` and the path cluster `node`, the only
/// leaf of its rake tree, trade places.
fn swap_with_rake<T: Cluster>(tree: &mut TopTree<T>, n: usize, dir: usize, node: CompNode)
    requires
        old(tree).wf(),
        n < old(tree).cs().len(),
        dir < 2,
        old(tree).comp_ok(node),
        old(tree).cs()[n as int].rake == Some(RakeNode::Leaf(node)),
    ensures
        final(tree).wf(),
        final(tree).same_sizes(old(tree)),
        final(tree).swapped_with_rake(old(tree), n, dir as int, node),
        final(tree).edges_kept(old(tree)),
        old(tree).shaped() ==> final(tree).shaped(),
{
    let nch = tree.comp(n).ch[dir];
    nch.push(tree);
    let ghost s4 = *tree;

    tree.set_comp_rake(n, Some(RakeNode::Leaf(nch)));
    nch.set_parent(tree, Some(ParentNode::Compress(n)));
    tree.set_comp_child(n, dir, node);
    node.set_parent(tree, Some(ParentNode::Compress(n)));
    let ghost swapped = *tree;
    proof {
        assert(tree.swapped_with_rake(&s4, n, dir as int, node));
        if s4.shaped() {
            TopTree::lemma_swap_with_rake_shaped(&s4, tree, n, dir as int, node);
        }
    }

    nch.fix(tree);
    let ghost f1 = *tree;
    node.fix(tree);
    let ghost f2 = *tree;
    Compress::fix(tree, n);
    proof {
        TopTree::lemma_swapped_with_rake_links_eq(&s4, &swapped, &f1, n, dir as int, node);
        TopTree::lemma_swapped_with_rake_links_eq(&s4, &f1, &f2, n, dir as int, node);
        TopTree::lemma_swapped_with_rake_links_eq(&s4, &f2, tree, n, dir as int, node);
    }
}

/// Makes `ver` a boundary vertex of the topmost cluster of its tree, and
/// returns that cluster.
pub fn expose<T: Cluster>(tree: &mut TopTree<T>, ver: Vertex) -> (r: CompNode)
    requires
        old(tree).inv(),
        old(tree).vx_ok(ver),
    ensures
        final(tree).inv(),
        final(tree).same_sizes(old(tree)),
        final(tree).comp_ok(r),
        old(tree).handle_of(ver) matches Some(CompNode::Node(i)) ==> r == CompNode::Node(i),
        r is Leaf ==> old(tree).handle_of(ver) == Some(r)
            && (final(tree).endpoint_of(r, 0) == ver || final(tree).endpoint_of(r, 1) == ver),
        final(tree).edges_kept(old(tree)),
        old(tree).shaped() ==> final(tree).shaped(),
{
    let h = ver.handle(tree).unwrap();
    proof {
        assert(tree.handle_at_end(ver.vertex as int, tree.vertices@[ver.vertex as int].handle));
    }
    let r = expose_raw(tree, h);
    r
}

/// Exposes `v` and `u` together: afterwards the path from `v` to `u` is
/// reachable from the top of the tree, with `v` on the left.
pub fn soft_expose<T: Cluster>(tree: &mut TopTree<T>, v: Vertex, u: Vertex)
    requires
        old(tree).inv(),
        old(tree).vx_ok(v),
        old(tree).vx_ok(u),
    ensures
        final(tree).inv(),
        final(tree).same_sizes(old(tree)),
        final(tree).edges_kept(old(tree)),
        old(tree).shaped() ==> final(tree).shaped(),
{
    let root = expose(tree, v);
    let ghost s1 = *tree;
    if v.handle(tree) == u.handle(tree) {
        if root.endpoints(tree, 1) == v || root.endpoints(tree, 0) == u {
            let bound = tree.comps.len();
            root.reverse(tree, bound);
            root.push(tree);
        }
        proof {
            TopTree::lemma_edges_kept_trans(old(tree), &s1, tree);
        }
        return;
    }
    if let CompNode::Node(root) = root {
        tree.set_guard(root, true);
        let ghost s2 = *tree;
        let soot = expose(tree, u);
        let ghost s3 = *tree;
        tree.set_guard(root, false);
        soot.push(tree);
        Compress::fix(tree, root);
        proof {
            TopTree::lemma_edges_kept_trans(old(tree), &s1, &s2);
            TopTree::lemma_edges_kept_trans(old(tree), &s2, &s3);
            TopTree::lemma_edges_kept_trans(old(tree), &s3, tree);
        }
        let ghost s4 = *tree;
        if let Some((0, _)) = parent_dir_comp(tree, soot) {
            let bound = tree.comps.len();
            Compress::reverse(tree, root, bound);
            Compress::push(tree, root);
        }
        proof {
            TopTree::lemma_edges_kept_trans(old(tree), &s4, tree);
        }
    }
}

} // verus!
