use vstd::prelude::*;
use crate::node::{Cluster, TopTree, Vertex, VertexRaw, CompNode, RakeNode, ParentNode, Edge, Compress, Rake, Link, with_handle};

verus! {

impl<T: Cluster> TopTree<T> {
    /// The compress node above `c` and the side of it on which `c` stands,
    /// unless that node is guarded.
    pub open(crate) spec fn parent_dir_comp_spec(&self, c: CompNode) -> Option<(usize, usize)> {
        match self.parent_of(c) {
            Some(ParentNode::Compress(p)) => {
                let n = self.comps@[p as int];
                if n.guard {
                    None
                } else if n.ch[0] == c {
                    Some((0usize, p))
                } else if n.ch[1] == c {
                    Some((1usize, p))
                } else {
                    None
                }
            },
            _ => None,
        }
    }

    /// The compress node above `c` and the side of it on which `c` stands.
    pub open(crate) spec fn parent_dir_comp_guard_spec(&self, c: CompNode) -> Option<(usize, usize)> {
        match self.parent_of(c) {
            Some(ParentNode::Compress(p)) => {
                let n = self.comps@[p as int];
                if n.ch[0] == c {
                    Some((0usize, p))
                } else if n.ch[1] == c {
                    Some((1usize, p))
                } else {
                    None
                }
            },
            _ => None,
        }
    }

    /// The rake node that holds the path cluster `c` as a leaf, and on which side.
    pub open(crate) spec fn parent_dir_comp_rake_spec(&self, c: CompNode) -> Option<(usize, usize)> {
        match self.parent_of(c) {
            Some(ParentNode::Rake(p)) => {
                let n = self.rakes@[p as int];
                if n.ch[0] == RakeNode::Leaf(c) {
                    Some((0usize, p))
                } else if n.ch[1] == RakeNode::Leaf(c) {
                    Some((1usize, p))
                } else {
                    None
                }
            },
            _ => None,
        }
    }

    /// The rake node above the rake tree member `r`, and on which side.
    pub open(crate) spec fn parent_dir_rake_spec(&self, r: RakeNode) -> Option<(usize, usize)> {
        match self.rake_parent_of(r) {
            Some(ParentNode::Rake(p)) => {
                let n = self.rakes@[p as int];
                if n.ch[0] == r {
                    Some((0usize, p))
                } else if n.ch[1] == r {
                    Some((1usize, p))
                } else {
                    None
                }
            },
            _ => None,
        }
    }
}

/// Where `child` stands below its compress parent, unless that parent is
/// guarded: the side and the parent.
pub fn parent_dir_comp<T: Cluster>(tree: &TopTree<T>, child: CompNode) -> (r: Option<(usize, usize)>)
    requires
        tree.wf(),
        tree.comp_ok(child),
    ensures
        r == tree.parent_dir_comp_spec(child),
        r matches Some((d, p)) ==> d < 2 && p < tree.cs().len(),
{
    match child.parent(tree) {
        Some(ParentNode::Compress(p)) => {
            let n = tree.comp(p);
            if n.guard {
                None
            } else if n.ch[0] == child {
                Some((0, p))
            } else if n.ch[1] == child {
                Some((1, p))
            } else {
                None
            }
        },
        _ => None,
    }
}

/// Where `child` stands below its compress parent, guarded or not.
pub fn parent_dir_comp_guard<T: Cluster>(tree: &TopTree<T>, child: CompNode) -> (r: Option<(usize, usize)>)
    requires
        tree.wf(),
        tree.comp_ok(child),
    ensures
        r == tree.parent_dir_comp_guard_spec(child),
        r matches Some((d, p)) ==> d < 2 && p < tree.cs().len(),
{
    match child.parent(tree) {
        Some(ParentNode::Compress(p)) => {
            let n = tree.comp(p);
            if n.ch[0] == child {
                Some((0, p))
            } else if n.ch[1] == child {
                Some((1, p))
            } else {
                None
            }
        },
        _ => None,
    }
}

/// Where the path cluster `child` stands as a leaf of its rake parent.
pub fn parent_dir_comp_rake<T: Cluster>(tree: &TopTree<T>, child: CompNode) -> (r: Option<(usize, usize)>)
    requires
        tree.wf(),
        tree.comp_ok(child),
    ensures
        r == tree.parent_dir_comp_rake_spec(child),
        r matches Some((d, p)) ==> d < 2 && p < tree.rks().len(),
{
    match child.parent(tree) {
        Some(ParentNode::Rake(p)) => {
            let n = tree.rake_at(p);
            if n.ch[0] == RakeNode::Leaf(child) {
                Some((0, p))
            } else if n.ch[1] == RakeNode::Leaf(child) {
                Some((1, p))
            } else {
                None
            }
        },
        _ => None,
    }
}

/// Where the rake tree member `child` stands below its rake parent.
pub fn parent_dir_rake<T: Cluster>(tree: &TopTree<T>, child: RakeNode) -> (r: Option<(usize, usize)>)
    requires
        tree.wf(),
        tree.rake_ok(child),
    ensures
        r == tree.parent_dir_rake_spec(child),
        r matches Some((d, p)) ==> d < 2 && p < tree.rks().len(),
{
    match child.parent(tree) {
        Some(ParentNode::Rake(p)) => {
            let n = tree.rake_at(p);
            if n.ch[0] == child {
                Some((0, p))
            } else if n.ch[1] == child {
                Some((1, p))
            } else {
                None
            }
        },
        _ => None,
    }
}

} // verus!
