use vstd::prelude::*;
use crate::node::{Cluster, TopTree, Vertex, CompNode, Compress};
use crate::expose::soft_expose;

verus! {

impl<T: Cluster> TopTree<T> {
    /// The fold that `path_query` reads once `v` and `u` are exposed: the
    /// whole top cluster when its boundary is exactly `v` and `u`, else the
    /// side of it that runs from `v`, or up to `u`, or the left part of its
    /// right side.
    pub open(crate) spec fn path_fold(&self, v: Vertex, u: Vertex) -> T {
        let root = self.handle_of(v).unwrap();
        if self.endpoint_of(root, 0) == v && self.endpoint_of(root, 1) == u {
            self.fold_of(root)
        } else {
            match root {
                CompNode::Node(n) => {
                    let node = self.comps@[n as int];
                    if self.endpoint_of(root, 0) == v {
                        self.fold_of(node.ch[0])
                    } else if self.endpoint_of(root, 1) == u {
                        self.fold_of(node.ch[1])
                    } else {
                        match node.ch[1] {
                            CompNode::Node(n2) => self.fold_of(self.comps@[n2 as int].ch[0]),
                            CompNode::Leaf(_) => self.fold_of(root),
                        }
                    }
                },
                CompNode::Leaf(_) => self.fold_of(root),
            }
        }
    }
}

/// What `path_query` reads is the fold of one path cluster of the tree, as
/// that cluster holds it: never turned round or otherwise changed.
pub proof fn lemma_path_fold_is_stored<T: Cluster>(tree: &TopTree<T>, v: Vertex, u: Vertex)
    requires
        tree.inv(),
        tree.vx_ok(v),
    ensures
        exists|c: CompNode| tree.comp_ok(c) && #[trigger] tree.fold_of(c) == tree.path_fold(v, u),
{
    let root = tree.handle_of(v).unwrap();
    assert(tree.handle_ok(tree.vertices@[v.vertex as int].handle));
    let c = if tree.endpoint_of(root, 0) == v && tree.endpoint_of(root, 1) == u {
        root
    } else {
        match root {
            CompNode::Node(n) => {
                let node = tree.comps@[n as int];
                assert(tree.comp_wf(node, n as int));
                if tree.endpoint_of(root, 0) == v {
                    node.ch[0]
                } else if tree.endpoint_of(root, 1) == u {
                    node.ch[1]
                } else {
                    match node.ch[1] {
                        CompNode::Node(n2) => {
                            assert(tree.comp_wf(tree.comps@[n2 as int], n2 as int));
                            tree.comps@[n2 as int].ch[0]
                        },
                        CompNode::Leaf(_) => root,
                    }
                }
            },
            CompNode::Leaf(_) => root,
        }
    };
    assert(tree.comp_ok(c) && tree.fold_of(c) == tree.path_fold(v, u));
}

/// The fold of the path from `v` to `u`, which must lie in the same tree.
pub fn path_query<T: Cluster>(tree: &mut TopTree<T>, v: Vertex, u: Vertex) -> (r: T)
    requires
        old(tree).inv(),
        old(tree).vx_ok(v),
        old(tree).vx_ok(u),
    ensures
        final(tree).inv(),
        final(tree).same_sizes(old(tree)),
        r == final(tree).path_fold(v, u),
        exists|c: CompNode| final(tree).comp_ok(c) && #[trigger] final(tree).fold_of(c) == r,
        final(tree).edges_kept(old(tree)),
        old(tree).shaped() ==> final(tree).shaped(),
{
    soft_expose(tree, v, u);
    let root = v.handle(tree).unwrap();
    root.push(tree);
    proof {
        lemma_path_fold_is_stored(tree, v, u);
    }

    if root.endpoints(tree, 0) == v && root.endpoints(tree, 1) == u {
        root.fold(tree)
    } else if root.endpoints(tree, 0) == v {
        if let CompNode::Node(n) = root {
            Compress::push(tree, n);
            tree.comp(n).ch[0].fold(tree)
        } else {
            root.fold(tree)
        }
    } else if root.endpoints(tree, 1) == u {
        if let CompNode::Node(n) = root {
            Compress::push(tree, n);
            tree.comp(n).ch[1].fold(tree)
        } else {
            root.fold(tree)
        }
    } else {
        if let CompNode::Node(n) = root {
            Compress::push(tree, n);
            if let CompNode::Node(n2) = tree.comp(n).ch[1] {
                Compress::push(tree, n2);
                tree.comp(n2).ch[0].fold(tree)
            } else {
                root.fold(tree)
            }
        } else {
            root.fold(tree)
        }
    }
}

} // verus!
