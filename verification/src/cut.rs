use vstd::prelude::*;
use crate::node::{Cluster, TopTree, Vertex, CompNode, RakeNode, ParentNode, Compress, Rake};
use crate::expose::soft_expose;
use crate::splay::splay_rake;

verus! {

/// Removes compress node `root`, which sits on top of its tree, by bringing
/// up a replacement for its right side: the last cluster of its rake tree,
/// or its left side alone when it has no rake tree. The slot of the removed
/// node is left unused.
fn bring<T: Cluster>(tree: &mut TopTree<T>, root: usize)
    requires
        old(tree).wf(),
        root < old(tree).cs().len(),
    ensures
        final(tree).wf(),
        final(tree).same_sizes(old(tree)),
        final(tree).edges_kept(old(tree)),
        old(tree).cs()[root as int].rake is None ==> final(tree).parent_of(old(tree).cs()[root as int].ch[0]) is None,
        old(tree).cs()[root as int].rake matches Some(RakeNode::Leaf(c)) ==> {
            &&& final(tree).cs()[root as int].ch[1] == c
            &&& final(tree).cs()[root as int].rake is None
            &&& final(tree).parent_of(c) == Some(ParentNode::Compress(root))
        },
{
    match tree.comp(root).rake {
        None => {
            let left = tree.comp(root).ch[0];
            left.set_parent(tree, None);
            let ghost s1 = *tree;
            left.fix(tree);
            proof {
                match left {
                    CompNode::Node(i) => { let m = tree.comps@[i as int]; },
                    CompNode::Leaf(i) => { let m = tree.edges@[i as int]; },
                }
            }
        },
        Some(RakeNode::Leaf(new_right)) => {
            let bound = tree.comps.len();
            new_right.reverse(tree, bound);
            new_right.push(tree);
            let ghost turned = *tree;

            tree.set_comp_child(root, 1, new_right);
            new_right.set_parent(tree, Some(ParentNode::Compress(root)));

            tree.set_comp_rake(root, None);
            let ghost s1 = *tree;

            new_right.fix(tree);
            let ghost s2 = *tree;
            Compress::fix(tree, root);
            proof {
                let m = tree.comps@[root as int];
                let m2 = s2.comps@[root as int];
                match new_right {
                    CompNode::Node(i) => {
                        let a = tree.comps@[i as int];
                        let b = s2.comps@[i as int];
                    },
                    CompNode::Leaf(i) => {
                        let a = tree.edges@[i as int];
                        let b = s2.edges@[i as int];
                    },
                }
                TopTree::lemma_edges_kept_trans(old(tree), &turned, tree);
            }
        },
        Some(RakeNode::Node(rake)) => {
            let ghost start = *tree;
            let mut rake = rake;
            Rake::push(tree, rake);
            let mut fuel = tree.rakes.len();
            while fuel > 0
                invariant
                    tree.wf(),
                    tree.same_sizes(&start),
                    *tree == start,
                    rake < tree.rakes.len(),
                decreases fuel,
            {
                fuel = fuel - 1;
                if let RakeNode::Node(right) = tree.rake_at(rake).ch[1] {
                    Rake::push(tree, right);
                    rake = right;
                } else {
                    break;
                }
            }
            tree.set_guard(root, true);
            let ghost s1 = *tree;
            splay_rake(tree, rake);
            let ghost s2 = *tree;
            tree.set_guard(root, false);
            proof {
                TopTree::lemma_edges_kept_trans(old(tree), &s1, &s2);
                TopTree::lemma_edges_kept_trans(old(tree), &s2, tree);
            }
            let new_rake = tree.rake_at(rake).ch[0];
            if let RakeNode::Leaf(new_right) = tree.rake_at(rake).ch[1] {
                let ghost s3 = *tree;
                let bound = tree.comps.len();
                new_right.reverse(tree, bound);
                new_right.push(tree);
                let ghost s4 = *tree;
                proof {
                    TopTree::lemma_edges_kept_trans(old(tree), &s3, &s4);
                }

                tree.set_comp_child(root, 1, new_right);
                new_right.set_parent(tree, Some(ParentNode::Compress(root)));

                tree.set_comp_rake(root, Some(new_rake));
                new_rake.set_parent(tree, Some(ParentNode::Compress(root)));

                new_rake.fix(tree);
                new_right.fix(tree);
                Compress::fix(tree, root);
                proof {
                    TopTree::lemma_edges_kept_trans(old(tree), &s4, tree);
                }
            }
            // otherwise the rake node has no last leaf to bring up

        },
    }
}

/// Removes the edge between `v` and `u`, which must be neighbours, and
/// splits their tree in two. The slots of the removed edge and of the
/// removed compress nodes are left unused.
pub fn cut<T: Cluster>(tree: &mut TopTree<T>, v: Vertex, u: Vertex)
    requires
        old(tree).inv(),
        old(tree).vx_ok(v),
        old(tree).vx_ok(u),
        exists|e: int| 0 <= e < old(tree).es().len() && #[trigger] old(tree).joins(e, v, u),
    ensures
        final(tree).inv(),
        final(tree).same_sizes(old(tree)),
        final(tree).edges_kept(old(tree)),
{
    soft_expose(tree, v, u);
    let root = v.handle(tree).unwrap();
    root.push(tree);
    if let CompNode::Node(root) = root {
        let right = tree.comp(root).ch[1];
        right.set_parent(tree, None);
        let ghost s1 = *tree;

        let bound = tree.comps.len();
        right.reverse(tree, bound);
        right.push(tree);
        let ghost s2 = *tree;
        proof {
            TopTree::lemma_edges_kept_trans(old(tree), &s1, &s2);
        }

        if let CompNode::Node(right) = right {
            if let CompNode::Leaf(_) = tree.comp(right).ch[1] {
                bring(tree, right);
                let ghost s3 = *tree;
                bring(tree, root);
                proof {
                    TopTree::lemma_edges_kept_trans(old(tree), &s2, &s3);
                    TopTree::lemma_edges_kept_trans(old(tree), &s3, tree);
                }
            }
        }
    }
    // after `soft_expose` the edge from `v` to `u` is the rightmost leaf
    // below the top node; other shapes do not arise
}

} // verus!
