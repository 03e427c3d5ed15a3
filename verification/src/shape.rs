use vstd::prelude::*;
use crate::node::{Cluster, TopTree, CompNode, RakeNode, ParentNode, set_side};

verus! {

impl<T: Cluster> TopTree<T> {
    /// Walking up the parent links from `k` reaches `a` (`k` itself counts),
    /// every step going to a node of larger rank.
    pub open(crate) spec fn in_sub(&self, k: RakeNode, a: RakeNode) -> bool
        decreases (self.ranks())(a) - (self.ranks())(k),
    {
        if k == a {
            true
        } else if (self.ranks())(k) >= (self.ranks())(a) {
            false
        } else {
            match self.rake_parent_of(k) {
                Some(p) => if (self.ranks())(k) < (self.ranks())(Self::pkey(p)) <= (self.ranks())(a) {
                    self.in_sub(Self::pkey(p), a)
                } else {
                    false
                },
                None => false,
            }
        }
    }

    /// The parent of a stored node is stored.
    pub(crate) proof fn lemma_parent_stored(&self, k: RakeNode)
        requires
            self.wf(),
            self.rake_ok(k),
        ensures
            self.parent_ok(self.rake_parent_of(k)),
            self.rake_parent_of(k) matches Some(p) ==> self.rake_ok(Self::pkey(p)),
    {
        match k {
            RakeNode::Node(i) => assert(self.rake_wf(self.rakes@[i as int])),
            RakeNode::Leaf(CompNode::Node(i)) => assert(self.comp_wf(self.comps@[i as int], i as int)),
            RakeNode::Leaf(CompNode::Leaf(i)) => assert(self.edge_wf(self.edges@[i as int], i as int)),
        }
    }

    /// What lies below `a` ranks no higher than `a`.
    pub(crate) proof fn lemma_in_sub_rank(&self, k: RakeNode, a: RakeNode)
        requires
            self.in_sub(k, a),
        ensures
            (self.rank@)(k) <= (self.rank@)(a),
    {
    }

    /// A node strictly below `a` has its parent below `a` too.
    pub(crate) proof fn lemma_in_sub_step(&self, k: RakeNode, a: RakeNode)
        requires
            self.in_sub(k, a),
            k != a,
        ensures
            self.rake_parent_of(k) is Some,
            self.in_sub(Self::pkey(self.rake_parent_of(k).unwrap()), a),
            (self.rank@)(Self::pkey(self.rake_parent_of(k).unwrap())) > (self.rank@)(k),
    {
    }

    /// In a forest, the children of a node below `a` are below `a`.
    pub(crate) proof fn lemma_in_sub_child(&self, c: RakeNode, a: RakeNode)
        requires
            self.shaped(),
            self.rake_ok(c),
            self.rake_parent_of(c) is Some,
            self.in_sub(Self::pkey(self.rake_parent_of(c).unwrap()), a),
        ensures
            self.in_sub(c, a),
    {
        self.lemma_up_ok_rake(c);
        self.lemma_in_sub_rank(Self::pkey(self.rake_parent_of(c).unwrap()), a);
    }

    /// Walks up from one node are one line: of two nodes above `k`, the
    /// lower one lies below the higher one.
    pub(crate) proof fn lemma_in_sub_linear(&self, k: RakeNode, a: RakeNode, b: RakeNode)
        requires
            self.in_sub(k, a),
            self.in_sub(k, b),
            (self.rank@)(a) <= (self.rank@)(b),
        ensures
            self.in_sub(a, b),
        decreases (self.ranks())(a) - (self.ranks())(k),
    {
        if k != a {
            self.lemma_in_sub_rank(k, a);
            if k == b {
                self.lemma_in_sub_rank(a, a);
            } else {
                let p = Self::pkey(self.rake_parent_of(k).unwrap());
                self.lemma_in_sub_step(k, a);
                self.lemma_in_sub_step(k, b);
                self.lemma_in_sub_linear(p, a, b);
            }
        }
    }

    /// Reordering sides keeps every walk upward: parent links and ranks are
    /// all that `in_sub` reads.
    pub(crate) proof fn lemma_in_sub_links_perm(o: &Self, f: &Self, k: RakeNode, a: RakeNode)
        requires
            o.wf(),
            o.rake_ok(k),
            f.links_perm(o),
        ensures
            o.in_sub(k, a) == f.in_sub(k, a),
        decreases (o.rank@)(a) - (o.rank@)(k),
    {
        assert(o.rake_parent_of(k) == f.rake_parent_of(k)) by {
            match k {
                RakeNode::Node(i) => {
                    let m = f.rakes@[i as int];
                },
                RakeNode::Leaf(CompNode::Node(i)) => {
                    let m = f.comps@[i as int];
                },
                RakeNode::Leaf(CompNode::Leaf(i)) => {
                    let m = f.edges@[i as int];
                },
            }
        }
        if k != a && (o.rank@)(k) < (o.rank@)(a) {
            if let Some(p) = o.rake_parent_of(k) {
                o.lemma_parent_stored(k);
                if (o.rank@)(k) < (o.rank@)(Self::pkey(p)) <= (o.rank@)(a) {
                    Self::lemma_in_sub_links_perm(o, f, Self::pkey(p), a);
                }
            }
        }
    }

    /// Walks upward compose: what lies below `b`, where `b` lies below `a`,
    /// lies below `a`.
    pub(crate) proof fn lemma_in_sub_trans(&self, k: RakeNode, b: RakeNode, a: RakeNode)
        requires
            self.in_sub(k, b),
            self.in_sub(b, a),
        ensures
            self.in_sub(k, a),
        decreases (self.ranks())(b) - (self.ranks())(k),
    {
        if k != b {
            self.lemma_in_sub_step(k, b);
            let p = Self::pkey(self.rake_parent_of(k).unwrap());
            self.lemma_in_sub_rank(p, b);
            self.lemma_in_sub_trans(p, b, a);
            self.lemma_in_sub_rank(p, a);
        }
    }

    /// In a forest, nothing lies below two distinct children of one node.
    pub(crate) proof fn lemma_in_sub_siblings(&self, k: RakeNode, c1: RakeNode, c2: RakeNode)
        requires
            self.shaped(),
            self.rake_ok(c1),
            self.rake_ok(c2),
            c1 != c2,
            self.rake_parent_of(c1) is Some,
            self.rake_parent_of(c1) == self.rake_parent_of(c2),
            self.in_sub(k, c1),
        ensures
            !self.in_sub(k, c2),
    {
        if self.in_sub(k, c2) {
            self.lemma_up_ok_rake(c1);
            self.lemma_up_ok_rake(c2);
            let p = Self::pkey(self.rake_parent_of(c1).unwrap());
            if (self.rank@)(c1) <= (self.rank@)(c2) {
                self.lemma_in_sub_linear(k, c1, c2);
                self.lemma_in_sub_step(c1, c2);
                self.lemma_in_sub_rank(p, c2);
            } else {
                self.lemma_in_sub_linear(k, c2, c1);
                self.lemma_in_sub_step(c2, c1);
                self.lemma_in_sub_rank(p, c1);
            }
        }
    }
}

} // verus!

verus! {

impl<T: Cluster> TopTree<T> {
    /// After a rotation of compress nodes, a walk up from `k` to `a` that
    /// passes none of the three nodes whose parent changed is still there.
    pub(crate) proof fn lemma_in_sub_rot_comp_other(o: &Self, f: &Self, t: usize, x: usize, dir: int, k: RakeNode, a: RakeNode)
        requires
            o.shaped(),
            t < o.comps.len(),
            x < o.comps.len(),
            0 <= dir < 2,
            o.rotate_comp_hyp(t, x, dir),
            f.rotated_comp(o, t, x, dir),
            f.rank@ == crate::splay::rot_rank(o.rank@, RakeNode::Leaf(CompNode::Node(t)), RakeNode::Leaf(CompNode::Node(x))),
            o.rake_ok(k),
            o.in_sub(k, a),
            !(o.in_sub(RakeNode::Leaf(CompNode::Node(t)), a) && RakeNode::Leaf(CompNode::Node(t)) != a),
            !(o.in_sub(RakeNode::Leaf(CompNode::Node(x)), a) && RakeNode::Leaf(CompNode::Node(x)) != a),
            !(o.in_sub(RakeNode::Leaf(o.comps@[t as int].ch[dir]), a) && RakeNode::Leaf(o.comps@[t as int].ch[dir]) != a),
        ensures
            f.in_sub(k, a),
        decreases (o.rank@)(a) - (o.rank@)(k),
    {
        if k != a {
            o.lemma_in_sub_step(k, a);
            o.lemma_parent_stored(k);
            let tk = RakeNode::Leaf(CompNode::Node(t));
            let xk = RakeNode::Leaf(CompNode::Node(x));
            assert(o.down_ok_comp(x as int));
            o.lemma_up_ok_comp(CompNode::Node(t));
            o.lemma_up_ok_rake(k);
            assert(k != tk && k != xk);
            let p = Self::pkey(o.rake_parent_of(k).unwrap());
            Self::lemma_in_sub_rot_comp_other(o, f, t, x, dir, p, a);
            f.lemma_in_sub_rank(p, a);
            o.lemma_in_sub_rank(p, a);
            assert(f.rake_parent_of(k) == o.rake_parent_of(k)) by {
                match k {
                    RakeNode::Node(i) => {
                        let n = f.rakes@[i as int];
                    },
                    RakeNode::Leaf(CompNode::Node(i)) => {
                        let n = f.comps@[i as int];
                    },
                    RakeNode::Leaf(CompNode::Leaf(i)) => {
                        let n = f.edges@[i as int];
                    },
                }
            }
        }
    }

    /// After compress node `t` is rotated above its parent, everything that
    /// was below `t` still is.
    pub(crate) proof fn lemma_in_sub_rot_comp_top(o: &Self, f: &Self, t: usize, x: usize, dir: int, k: RakeNode)
        requires
            o.shaped(),
            t < o.comps.len(),
            x < o.comps.len(),
            0 <= dir < 2,
            o.rotate_comp_hyp(t, x, dir),
            f.rotated_comp(o, t, x, dir),
            f.rank@ == crate::splay::rot_rank(o.rank@, RakeNode::Leaf(CompNode::Node(t)), RakeNode::Leaf(CompNode::Node(x))),
            o.rake_ok(k),
            o.in_sub(k, RakeNode::Leaf(CompNode::Node(t))),
        ensures
            f.in_sub(k, RakeNode::Leaf(CompNode::Node(t))),
        decreases (o.rank@)(RakeNode::Leaf(CompNode::Node(t))) - (o.rank@)(k),
    {
        let tk = RakeNode::Leaf(CompNode::Node(t));
        let xk = RakeNode::Leaf(CompNode::Node(x));
        let mk = RakeNode::Leaf(o.comps@[t as int].ch[dir]);
        if k != tk {
            o.lemma_in_sub_step(k, tk);
            o.lemma_parent_stored(k);
            assert(o.down_ok_comp(x as int));
            assert(o.down_ok_comp(t as int));
            o.lemma_up_ok_comp(CompNode::Node(t));
            o.lemma_up_ok_comp(o.comps@[t as int].ch[dir]);
            o.lemma_up_ok_rake(k);
            let p = Self::pkey(o.rake_parent_of(k).unwrap());
            o.lemma_in_sub_rank(p, tk);
            assert(k != xk);
            if k == mk {
                assert(f.in_sub(tk, tk));
                assert(f.in_sub(xk, tk));
            } else {
                Self::lemma_in_sub_rot_comp_top(o, f, t, x, dir, p);
                f.lemma_in_sub_rank(p, tk);
                assert(f.rake_parent_of(k) == o.rake_parent_of(k)) by {
                    match k {
                        RakeNode::Node(i) => {
                            let n = f.rakes@[i as int];
                        },
                        RakeNode::Leaf(CompNode::Node(i)) => {
                            let n = f.comps@[i as int];
                        },
                        RakeNode::Leaf(CompNode::Leaf(i)) => {
                            let n = f.edges@[i as int];
                        },
                    }
                }
            }
        }
    }

    /// After a rotation of rake nodes, a walk up from `k` to `a` that
    /// passes none of the three nodes whose parent changed is still there.
    pub(crate) proof fn lemma_in_sub_rot_rake_other(o: &Self, f: &Self, t: usize, x: usize, dir: int, k: RakeNode, a: RakeNode)
        requires
            o.shaped(),
            t < o.rakes.len(),
            x < o.rakes.len(),
            0 <= dir < 2,
            o.rotate_rake_hyp(t, x, dir),
            f.rotated_rake(o, t, x, dir),
            f.rank@ == crate::splay::rot_rank(o.rank@, RakeNode::Node(t), RakeNode::Node(x)),
            o.rake_ok(k),
            o.in_sub(k, a),
            !(o.in_sub(RakeNode::Node(t), a) && RakeNode::Node(t) != a),
            !(o.in_sub(RakeNode::Node(x), a) && RakeNode::Node(x) != a),
            !(o.in_sub(o.rakes@[t as int].ch[dir], a) && o.rakes@[t as int].ch[dir] != a),
        ensures
            f.in_sub(k, a),
        decreases (o.rank@)(a) - (o.rank@)(k),
    {
        if k != a {
            o.lemma_in_sub_step(k, a);
            o.lemma_parent_stored(k);
            let tk = RakeNode::Node(t);
            let xk = RakeNode::Node(x);
            assert(o.down_ok_rake(x as int));
            o.lemma_up_ok_rake(RakeNode::Node(t));
            o.lemma_up_ok_rake(k);
            assert(k != tk && k != xk);
            let p = Self::pkey(o.rake_parent_of(k).unwrap());
            Self::lemma_in_sub_rot_rake_other(o, f, t, x, dir, p, a);
            f.lemma_in_sub_rank(p, a);
            o.lemma_in_sub_rank(p, a);
            assert(f.rake_parent_of(k) == o.rake_parent_of(k)) by {
                match k {
                    RakeNode::Node(i) => {
                        let n = f.rakes@[i as int];
                    },
                    RakeNode::Leaf(CompNode::Node(i)) => {
                        let n = f.comps@[i as int];
                    },
                    RakeNode::Leaf(CompNode::Leaf(i)) => {
                        let n = f.edges@[i as int];
                    },
                }
            }
        }
    }

    /// After rake node `t` is rotated above its parent, everything that
    /// was below `t` still is.
    pub(crate) proof fn lemma_in_sub_rot_rake_top(o: &Self, f: &Self, t: usize, x: usize, dir: int, k: RakeNode)
        requires
            o.shaped(),
            t < o.rakes.len(),
            x < o.rakes.len(),
            0 <= dir < 2,
            o.rotate_rake_hyp(t, x, dir),
            f.rotated_rake(o, t, x, dir),
            f.rank@ == crate::splay::rot_rank(o.rank@, RakeNode::Node(t), RakeNode::Node(x)),
            o.rake_ok(k),
            o.in_sub(k, RakeNode::Node(t)),
        ensures
            f.in_sub(k, RakeNode::Node(t)),
        decreases (o.rank@)(RakeNode::Node(t)) - (o.rank@)(k),
    {
        let tk = RakeNode::Node(t);
        let xk = RakeNode::Node(x);
        let mk = o.rakes@[t as int].ch[dir];
        if k != tk {
            o.lemma_in_sub_step(k, tk);
            o.lemma_parent_stored(k);
            assert(o.down_ok_rake(x as int));
            assert(o.down_ok_rake(t as int));
            o.lemma_up_ok_rake(RakeNode::Node(t));
            o.lemma_up_ok_rake(o.rakes@[t as int].ch[dir]);
            o.lemma_up_ok_rake(k);
            let p = Self::pkey(o.rake_parent_of(k).unwrap());
            o.lemma_in_sub_rank(p, tk);
            assert(k != xk);
            if k == mk {
                assert(f.in_sub(tk, tk));
                assert(f.in_sub(xk, tk));
            } else {
                Self::lemma_in_sub_rot_rake_top(o, f, t, x, dir, p);
                f.lemma_in_sub_rank(p, tk);
                assert(f.rake_parent_of(k) == o.rake_parent_of(k)) by {
                    match k {
                        RakeNode::Node(i) => {
                            let n = f.rakes@[i as int];
                        },
                        RakeNode::Leaf(CompNode::Node(i)) => {
                            let n = f.comps@[i as int];
                        },
                        RakeNode::Leaf(CompNode::Leaf(i)) => {
                            let n = f.edges@[i as int];
                        },
                    }
                }
            }
        }
    }

    /// A walk up from `k` to a node `a` ranked below the node `t` that a
    /// rotation of compress nodes raises is still there afterwards.
    pub(crate) proof fn lemma_in_sub_rot_comp_below(o: &Self, f: &Self, t: usize, x: usize, dir: int, k: RakeNode, a: RakeNode)
        requires
            o.shaped(),
            t < o.comps.len(),
            x < o.comps.len(),
            0 <= dir < 2,
            o.rotate_comp_hyp(t, x, dir),
            f.rotated_comp(o, t, x, dir),
            f.rank@ == crate::splay::rot_rank(o.rank@, RakeNode::Leaf(CompNode::Node(t)), RakeNode::Leaf(CompNode::Node(x))),
            o.rake_ok(k),
            o.in_sub(k, a),
            (o.rank@)(a) < (o.rank@)(RakeNode::Leaf(CompNode::Node(t))),
        ensures
            f.in_sub(k, a),
    {
        let tk = RakeNode::Leaf(CompNode::Node(t));
        let xk = RakeNode::Leaf(CompNode::Node(x));
        let m = o.comps@[t as int].ch[dir];
        assert(o.down_ok_comp(x as int));
        assert(o.down_ok_comp(t as int));
        o.lemma_up_ok_comp(CompNode::Node(t));
        if o.in_sub(tk, a) {
            o.lemma_in_sub_rank(tk, a);
        }
        if o.in_sub(xk, a) {
            o.lemma_in_sub_rank(xk, a);
        }
        if o.in_sub(RakeNode::Leaf(m), a) && RakeNode::Leaf(m) != a {
            o.lemma_in_sub_step(RakeNode::Leaf(m), a);
            o.lemma_in_sub_rank(tk, a);
        }
        Self::lemma_in_sub_rot_comp_other(o, f, t, x, dir, k, a);
    }

    /// A rotation of compress nodes whose raised node is `t` itself or lies
    /// above `t` keeps every walk that ends at or below `t`, and keeps its end
    /// below `t`.
    pub(crate) proof fn lemma_sub_rot_comp(o: &Self, f: &Self, top: usize, x: usize, dir: int, t: usize)
        requires
            o.shaped(),
            top < o.comps.len(),
            x < o.comps.len(),
            t < o.comps.len(),
            0 <= dir < 2,
            o.rotate_comp_hyp(top, x, dir),
            f.rotated_comp(o, top, x, dir),
            f.rank@ == crate::splay::rot_rank(o.rank@, RakeNode::Leaf(CompNode::Node(top)), RakeNode::Leaf(CompNode::Node(x))),
            top == t || (o.rank@)(RakeNode::Leaf(CompNode::Node(t))) < (o.rank@)(RakeNode::Leaf(CompNode::Node(top))),
        ensures
            forall|k: RakeNode, a: RakeNode|
                o.rake_ok(k) && o.rake_ok(a) && #[trigger] o.in_sub(a, RakeNode::Leaf(CompNode::Node(t)))
                    && #[trigger] o.in_sub(k, a) ==> f.in_sub(k, a) && f.in_sub(a, RakeNode::Leaf(CompNode::Node(t))),
    {
        let tk = RakeNode::Leaf(CompNode::Node(t));
        assert forall|k: RakeNode, a: RakeNode|
            o.rake_ok(k) && o.rake_ok(a) && #[trigger] o.in_sub(a, tk) && #[trigger] o.in_sub(k, a) implies f.in_sub(k, a)
                && f.in_sub(a, tk) by {
            o.lemma_in_sub_rank(a, tk);
            if top == t {
                Self::lemma_in_sub_rot_comp_top(o, f, top, x, dir, a);
                if a == tk {
                    Self::lemma_in_sub_rot_comp_top(o, f, top, x, dir, k);
                } else {
                    if (o.rank@)(a) == (o.rank@)(tk) {
                        o.lemma_in_sub_step(a, tk);
                        o.lemma_in_sub_rank(Self::pkey(o.rake_parent_of(a).unwrap()), tk);
                    }
                    Self::lemma_in_sub_rot_comp_below(o, f, top, x, dir, k, a);
                }
            } else {
                Self::lemma_in_sub_rot_comp_below(o, f, top, x, dir, a, tk);
                Self::lemma_in_sub_rot_comp_below(o, f, top, x, dir, k, a);
            }
        }
    }

    /// A walk up from `k` to a node `a` ranked below the node `t` that a
    /// rotation of rake nodes raises is still there afterwards.
    pub(crate) proof fn lemma_in_sub_rot_rake_below(o: &Self, f: &Self, t: usize, x: usize, dir: int, k: RakeNode, a: RakeNode)
        requires
            o.shaped(),
            t < o.rakes.len(),
            x < o.rakes.len(),
            0 <= dir < 2,
            o.rotate_rake_hyp(t, x, dir),
            f.rotated_rake(o, t, x, dir),
            f.rank@ == crate::splay::rot_rank(o.rank@, RakeNode::Node(t), RakeNode::Node(x)),
            o.rake_ok(k),
            o.in_sub(k, a),
            (o.rank@)(a) < (o.rank@)(RakeNode::Node(t)),
        ensures
            f.in_sub(k, a),
    {
        let tk = RakeNode::Node(t);
        let xk = RakeNode::Node(x);
        let m = o.rakes@[t as int].ch[dir];
        assert(o.down_ok_rake(x as int));
        assert(o.down_ok_rake(t as int));
        o.lemma_up_ok_rake(RakeNode::Node(t));
        if o.in_sub(tk, a) {
            o.lemma_in_sub_rank(tk, a);
        }
        if o.in_sub(xk, a) {
            o.lemma_in_sub_rank(xk, a);
        }
        if o.in_sub(m, a) && m != a {
            o.lemma_in_sub_step(m, a);
            o.lemma_in_sub_rank(tk, a);
        }
        Self::lemma_in_sub_rot_rake_other(o, f, t, x, dir, k, a);
    }

    /// A rotation of rake nodes whose raised node is `t` itself or lies
    /// above `t` keeps every walk that ends at or below `t`, and keeps its end
    /// below `t`.
    pub(crate) proof fn lemma_sub_rot_rake(o: &Self, f: &Self, top: usize, x: usize, dir: int, t: usize)
        requires
            o.shaped(),
            top < o.rakes.len(),
            x < o.rakes.len(),
            t < o.rakes.len(),
            0 <= dir < 2,
            o.rotate_rake_hyp(top, x, dir),
            f.rotated_rake(o, top, x, dir),
            f.rank@ == crate::splay::rot_rank(o.rank@, RakeNode::Node(top), RakeNode::Node(x)),
            top == t || (o.rank@)(RakeNode::Node(t)) < (o.rank@)(RakeNode::Node(top)),
        ensures
            forall|k: RakeNode, a: RakeNode|
                o.rake_ok(k) && o.rake_ok(a) && #[trigger] o.in_sub(a, RakeNode::Node(t))
                    && #[trigger] o.in_sub(k, a) ==> f.in_sub(k, a) && f.in_sub(a, RakeNode::Node(t)),
    {
        let tk = RakeNode::Node(t);
        assert forall|k: RakeNode, a: RakeNode|
            o.rake_ok(k) && o.rake_ok(a) && #[trigger] o.in_sub(a, tk) && #[trigger] o.in_sub(k, a) implies f.in_sub(k, a)
                && f.in_sub(a, tk) by {
            o.lemma_in_sub_rank(a, tk);
            if top == t {
                Self::lemma_in_sub_rot_rake_top(o, f, top, x, dir, a);
                if a == tk {
                    Self::lemma_in_sub_rot_rake_top(o, f, top, x, dir, k);
                } else {
                    if (o.rank@)(a) == (o.rank@)(tk) {
                        o.lemma_in_sub_step(a, tk);
                        o.lemma_in_sub_rank(Self::pkey(o.rake_parent_of(a).unwrap()), tk);
                    }
                    Self::lemma_in_sub_rot_rake_below(o, f, top, x, dir, k, a);
                }
            } else {
                Self::lemma_in_sub_rot_rake_below(o, f, top, x, dir, a, tk);
                Self::lemma_in_sub_rot_rake_below(o, f, top, x, dir, k, a);
            }
        }
    }
}

} // verus!

verus! {

impl<T: Cluster> TopTree<T> {
    /// The links of `self` are those of `o` after path cluster `node`, a
    /// member of rake node `rake` on side `n_dir`, trades places with the
    /// side `dir` of compress node `n`: that side now hangs in `rake`, and
    /// `node` becomes the side of `n`. Every other link stays.
    pub open(crate) spec fn swapped_in_rake(&self, o: &Self, n: usize, dir: int, node: CompNode, rake: usize, n_dir: int) -> bool {
        let nch = o.comps@[n as int].ch[dir];
        &&& self.same_sizes(o)
        &&& forall|k: int| 0 <= k < self.comps.len() ==> {
            let m = #[trigger] self.comps@[k];
            let om = o.comps@[k];
            &&& m.ch == if k == n { set_side(om.ch, dir, node) } else { om.ch }
            &&& m.rake == om.rake
            &&& m.par == if CompNode::Node(k as usize) == node {
                Some(ParentNode::Compress(n))
            } else if CompNode::Node(k as usize) == nch {
                Some(ParentNode::Rake(rake))
            } else {
                om.par
            }
        }
        &&& forall|k: int| 0 <= k < self.rakes.len() ==> {
            let m = #[trigger] self.rakes@[k];
            let om = o.rakes@[k];
            &&& m.ch == if k == rake { set_side(om.ch, n_dir, RakeNode::Leaf(nch)) } else { om.ch }
            &&& m.par == om.par
        }
        &&& forall|k: int| 0 <= k < self.edges.len() ==> {
            let e = #[trigger] self.edges@[k];
            let oe = o.edges@[k];
            &&& e.par == if CompNode::Leaf(k as usize) == node {
                Some(ParentNode::Compress(n))
            } else if CompNode::Leaf(k as usize) == nch {
                Some(ParentNode::Rake(rake))
            } else {
                oe.par
            }
        }
    }

    /// The links of `self` are those of `o` after side `dir` of compress
    /// node `n` and the path cluster `node` trade places: `node` becomes
    /// that side and the former side becomes the rake tree of `n`. Every
    /// other link stays.
    pub open(crate) spec fn swapped_with_rake(&self, o: &Self, n: usize, dir: int, node: CompNode) -> bool {
        let nch = o.comps@[n as int].ch[dir];
        &&& self.same_sizes(o)
        &&& self.rank@ == o.rank@
        &&& forall|k: int| 0 <= k < self.comps.len() ==> {
            let m = #[trigger] self.comps@[k];
            let om = o.comps@[k];
            &&& m.ch == if k == n { set_side(om.ch, dir, node) } else { om.ch }
            &&& m.rake == if k == n { Some(RakeNode::Leaf(nch)) } else { om.rake }
            &&& m.par == if CompNode::Node(k as usize) == nch || CompNode::Node(k as usize) == node {
                Some(ParentNode::Compress(n))
            } else {
                om.par
            }
        }
        &&& forall|k: int| 0 <= k < self.rakes.len() ==> {
            let m = #[trigger] self.rakes@[k];
            let om = o.rakes@[k];
            &&& m.ch == om.ch
            &&& m.par == om.par
        }
        &&& forall|k: int| 0 <= k < self.edges.len() ==> {
            let e = #[trigger] self.edges@[k];
            let oe = o.edges@[k];
            &&& e.par == if CompNode::Leaf(k as usize) == nch || CompNode::Leaf(k as usize) == node {
                Some(ParentNode::Compress(n))
            } else {
                oe.par
            }
        }
    }

    /// Recomputing boundaries and folds keeps the links of a trade with the
    /// rake tree.
    pub(crate) proof fn lemma_swapped_with_rake_links_eq(o: &Self, m: &Self, f: &Self, n: usize, dir: int, node: CompNode)
        requires
            m.swapped_with_rake(o, n, dir, node),
            f.links_eq(m),
        ensures
            f.swapped_with_rake(o, n, dir, node),
    {
        assert forall|k: int| 0 <= k < f.vertices.len() implies {
            &&& (#[trigger] f.vertices@[k]).val == o.vertices@[k].val
            &&& (o.vertices@[k].handle is Some ==> f.vertices@[k].handle is Some)
        } by {
            assert(m.vertices@[k].val == o.vertices@[k].val);
        }
        assert forall|k: int| 0 <= k < f.comps.len() implies f.comps@[k].ch == m.comps@[k].ch
            && f.comps@[k].rake == m.comps@[k].rake && f.comps@[k].par == m.comps@[k].par by {
            let x = f.comps@[k];
        }
        assert forall|k: int| 0 <= k < f.rakes.len() implies f.rakes@[k].ch == m.rakes@[k].ch && f.rakes@[k].par == m.rakes@[k].par by {
            let x = f.rakes@[k];
        }
        assert forall|k: int| 0 <= k < f.edges.len() implies f.edges@[k].par == m.edges@[k].par by {
            let x = f.edges@[k];
        }
    }

    /// Recomputing boundaries and folds keeps the links of a trade into the
    /// rake tree.
    pub(crate) proof fn lemma_swapped_in_rake_links_eq(o: &Self, m: &Self, f: &Self, n: usize, dir: int, node: CompNode, rake: usize, n_dir: int)
        requires
            m.swapped_in_rake(o, n, dir, node, rake, n_dir),
            f.links_eq(m),
        ensures
            f.swapped_in_rake(o, n, dir, node, rake, n_dir),
    {
        assert forall|k: int| 0 <= k < f.vertices.len() implies {
            &&& (#[trigger] f.vertices@[k]).val == o.vertices@[k].val
            &&& (o.vertices@[k].handle is Some ==> f.vertices@[k].handle is Some)
        } by {
            assert(m.vertices@[k].val == o.vertices@[k].val);
        }
        assert forall|k: int| 0 <= k < f.comps.len() implies f.comps@[k].ch == m.comps@[k].ch
            && f.comps@[k].rake == m.comps@[k].rake && f.comps@[k].par == m.comps@[k].par by {
            let x = f.comps@[k];
        }
        assert forall|k: int| 0 <= k < f.rakes.len() implies f.rakes@[k].ch == m.rakes@[k].ch && f.rakes@[k].par == m.rakes@[k].par by {
            let x = f.rakes@[k];
        }
        assert forall|k: int| 0 <= k < f.edges.len() implies f.edges@[k].par == m.edges@[k].par by {
            let x = f.edges@[k];
        }
    }

    /// Trading a side of compress node `n` with the only leaf of its rake
    /// tree keeps a forest: both already hang from `n`.
    pub(crate) proof fn lemma_swap_with_rake_shaped(o: &Self, f: &Self, n: usize, dir: int, node: CompNode)
        requires
            o.shaped(),
            n < o.comps.len(),
            0 <= dir < 2,
            o.comps@[n as int].rake == Some(RakeNode::Leaf(node)),
            f.wf(),
            f.swapped_with_rake(o, n, dir, node),
        ensures
            f.shaped(),
    {
        let nch = o.comps@[n as int].ch[dir];
        assert(o.down_ok_comp(n as int));
        assert(o.comp_wf(o.comps@[n as int], n as int));
        assert(o.parent_of(nch) == Some(ParentNode::Compress(n))) by {
            if dir == 0 {} else {}
        }
        assert forall|k: RakeNode| o.rake_ok(k) implies #[trigger] f.rake_parent_of(k) == o.rake_parent_of(k) by {
            match k {
                RakeNode::Node(i) => {
                    let m = f.rakes@[i as int];
                },
                RakeNode::Leaf(CompNode::Node(i)) => {
                    let m = f.comps@[i as int];
                },
                RakeNode::Leaf(CompNode::Leaf(i)) => {
                    let m = f.edges@[i as int];
                },
            }
        }
        assert forall|k: RakeNode| o.rake_ok(k) && #[trigger] o.up_ok(k) implies f.up_ok(k) by {
            assert(f.rake_parent_of(k) == o.rake_parent_of(k));
            if let Some(p) = o.rake_parent_of(k) {
                match p {
                    ParentNode::Compress(i) => {
                        let m = f.comps@[i as int];
                    },
                    ParentNode::Rake(i) => {
                        let m = f.rakes@[i as int];
                    },
                }
            }
        }
        assert forall|i: usize| i < f.comps.len() implies #[trigger] f.up_ok(RakeNode::Leaf(CompNode::Node(i))) by {
            assert(o.up_ok(RakeNode::Leaf(CompNode::Node(i))));
        }
        assert forall|i: usize| i < f.edges.len() implies #[trigger] f.up_ok(RakeNode::Leaf(CompNode::Leaf(i))) by {
            assert(o.up_ok(RakeNode::Leaf(CompNode::Leaf(i))));
        }
        assert forall|i: usize| i < f.rakes.len() implies #[trigger] f.up_ok(RakeNode::Node(i)) by {
            assert(o.up_ok(RakeNode::Node(i)));
        }
        assert forall|i: int| 0 <= i < f.comps.len() implies #[trigger] f.down_ok_comp(i) by {
            assert(o.down_ok_comp(i));
            assert(o.comp_wf(o.comps@[i], i));
            let m = f.comps@[i];
            let om = o.comps@[i];
            assert(f.rake_parent_of(RakeNode::Leaf(om.ch[0])) == o.rake_parent_of(RakeNode::Leaf(om.ch[0])));
            assert(f.rake_parent_of(RakeNode::Leaf(om.ch[1])) == o.rake_parent_of(RakeNode::Leaf(om.ch[1])));
            if let Some(r) = om.rake {
                assert(f.rake_parent_of(r) == o.rake_parent_of(r));
            }
        }
        assert forall|i: int| 0 <= i < f.rakes.len() implies #[trigger] f.down_ok_rake(i) by {
            assert(o.down_ok_rake(i));
            assert(o.rake_wf(o.rakes@[i]));
            let om = o.rakes@[i];
            assert(f.rake_parent_of(om.ch[0]) == o.rake_parent_of(om.ch[0]));
            assert(f.rake_parent_of(om.ch[1]) == o.rake_parent_of(om.ch[1]));
        }
    }

    /// The ranks after the side `nch` moves down into a rake tree: what lies
    /// below `nch` keeps its rank, everything else is raised above it.
    pub open(crate) spec fn sink_rank(&self, nch: RakeNode, rake: RakeNode) -> spec_fn(RakeNode) -> int {
        let r = self.rank@;
        let lift = if r(nch) >= r(rake) { r(nch) - r(rake) + 1 } else { 1 };
        |k: RakeNode| if self.in_sub(k, nch) { r(k) } else { r(k) + lift }
    }

    /// Under `sink_rank`, every parent still outranks its child.
    pub(crate) proof fn lemma_sink_order(&self, nch: RakeNode, rake: RakeNode, k: RakeNode)
        requires
            self.shaped(),
            self.rake_ok(k),
            self.rake_parent_of(k) is Some,
            k != nch,
        ensures
            (self.sink_rank(nch, rake))(Self::pkey(self.rake_parent_of(k).unwrap()))
                > (self.sink_rank(nch, rake))(k),
    {
        let p = Self::pkey(self.rake_parent_of(k).unwrap());
        self.lemma_up_ok_rake(k);
        if self.in_sub(k, nch) {
            self.lemma_in_sub_step(k, nch);
        } else if self.in_sub(p, nch) {
            self.lemma_in_sub_child(k, nch);
        }
    }

    /// The parent links after `swapped_in_rake`.
    pub(crate) proof fn lemma_swap_in_rake_parent(o: &Self, f: &Self, n: usize, dir: int, node: CompNode, rake: usize, n_dir: int, k: RakeNode)
        requires
            o.rake_ok(k),
            f.swapped_in_rake(o, n, dir, node, rake, n_dir),
        ensures
            f.rake_parent_of(k) == if k == RakeNode::Leaf(node) {
                Some(ParentNode::Compress(n))
            } else if k == RakeNode::Leaf(o.comps@[n as int].ch[dir]) {
                Some(ParentNode::Rake(rake))
            } else {
                o.rake_parent_of(k)
            },
    {
        match k {
            RakeNode::Node(i) => {
                let m = f.rakes@[i as int];
            },
            RakeNode::Leaf(CompNode::Node(i)) => {
                let m = f.comps@[i as int];
            },
            RakeNode::Leaf(CompNode::Leaf(i)) => {
                let m = f.edges@[i as int];
            },
        }
    }

    /// After `swapped_in_rake`, the parent of `k` holds it and outranks it.
    pub(crate) proof fn lemma_swap_in_rake_up(o: &Self, f: &Self, n: usize, dir: int, node: CompNode, rake: usize, n_dir: int, top: RakeNode, k: RakeNode)
        requires
            o.shaped(),
            n < o.comps.len(),
            0 <= dir < 2,
            0 <= n_dir < 2,
            rake < o.rakes.len(),
            o.comps@[n as int].rake == Some(top),
            o.rakes@[rake as int].ch[n_dir] == RakeNode::Leaf(node),
            o.rake_parent_of(RakeNode::Leaf(node)) == Some(ParentNode::Rake(rake)),
            o.rake_parent_of(RakeNode::Leaf(o.comps@[n as int].ch[dir])) == Some(ParentNode::Compress(n)),
            RakeNode::Leaf(node) != RakeNode::Leaf(o.comps@[n as int].ch[dir]),
            RakeNode::Leaf(node) != RakeNode::Leaf(o.comps@[n as int].ch[1 - dir]),
            !o.in_sub(RakeNode::Leaf(node), RakeNode::Leaf(o.comps@[n as int].ch[dir])),
            !o.in_sub(RakeNode::Leaf(CompNode::Node(n)), RakeNode::Leaf(o.comps@[n as int].ch[dir])),
            !o.in_sub(RakeNode::Node(rake), RakeNode::Leaf(o.comps@[n as int].ch[dir])),
            (o.rank@)(RakeNode::Leaf(node)) < (o.rank@)(RakeNode::Leaf(CompNode::Node(n))),
            o.rake_ok(k),
            f.swapped_in_rake(o, n, dir, node, rake, n_dir),
            f.rank@ == o.sink_rank(RakeNode::Leaf(o.comps@[n as int].ch[dir]), RakeNode::Node(rake)),
        ensures
            f.up_ok(k),
    {
        let nch = o.comps@[n as int].ch[dir];
        let nchk = RakeNode::Leaf(nch);
        let nodek = RakeNode::Leaf(node);
        let fnode = f.comps@[n as int];
        let frake = f.rakes@[rake as int];
        Self::lemma_swap_in_rake_parent(o, f, n, dir, node, rake, n_dir, k);
        assert(o.in_sub(nchk, nchk));
        if k == nchk {
            assert(frake.ch[n_dir] == nchk);
            assert((o.rank@)(nchk) < (f.rank@)(RakeNode::Node(rake)));
        } else if k == nodek {
            assert(fnode.ch[dir] == node);
        } else {
            o.lemma_up_ok_rake(k);
            if let Some(p) = o.rake_parent_of(k) {
                o.lemma_sink_order(nchk, RakeNode::Node(rake), k);
                match p {
                    ParentNode::Compress(i) => {
                        let m = f.comps@[i as int];
                    },
                    ParentNode::Rake(i) => {
                        let m = f.rakes@[i as int];
                    },
                }
            }
        }
    }

    /// Where the path cluster `node` hangs in the rake tree `top` of
    /// compress node `n`, it lies below none of the sides of `n`, and `n`
    /// ranks above it.
    pub(crate) proof fn lemma_swap_in_rake_facts(o: &Self, n: usize, dir: int, node: CompNode, rake: usize, n_dir: int, top: RakeNode)
        requires
            o.shaped(),
            n < o.comps.len(),
            0 <= dir < 2,
            0 <= n_dir < 2,
            rake < o.rakes.len(),
            o.comp_ok(node),
            o.comps@[n as int].rake == Some(top),
            o.rakes@[rake as int].ch[n_dir] == RakeNode::Leaf(node),
            o.in_sub(RakeNode::Node(rake), top),
        ensures
            o.rake_parent_of(RakeNode::Leaf(node)) == Some(ParentNode::Rake(rake)),
            o.rake_parent_of(RakeNode::Leaf(o.comps@[n as int].ch[dir])) == Some(ParentNode::Compress(n)),
            node != o.comps@[n as int].ch[dir],
            node != o.comps@[n as int].ch[1 - dir],
            node != CompNode::Node(n),
            o.comps@[n as int].ch[dir] != CompNode::Node(n),
            !o.in_sub(RakeNode::Leaf(node), RakeNode::Leaf(o.comps@[n as int].ch[dir])),
            !o.in_sub(RakeNode::Leaf(CompNode::Node(n)), RakeNode::Leaf(o.comps@[n as int].ch[dir])),
            !o.in_sub(RakeNode::Node(rake), RakeNode::Leaf(o.comps@[n as int].ch[dir])),
            (o.rank@)(RakeNode::Leaf(node)) < (o.rank@)(RakeNode::Leaf(CompNode::Node(n))),
    {
        let nch = o.comps@[n as int].ch[dir];
        let other = o.comps@[n as int].ch[1 - dir];
        let nk = RakeNode::Leaf(CompNode::Node(n));
        let nchk = RakeNode::Leaf(nch);
        let nodek = RakeNode::Leaf(node);
        let rk = RakeNode::Node(rake);
        assert(o.comp_wf(o.comps@[n as int], n as int));
        assert(o.down_ok_comp(n as int));
        assert(o.down_ok_rake(rake as int));
        assert(o.rake_parent_of(nchk) == Some(ParentNode::Compress(n))) by {
            if dir == 0 {} else {}
        }
        o.lemma_up_ok_rake(top);
        o.lemma_up_ok_rake(nodek);
        o.lemma_up_ok_rake(rk);
        assert(o.in_sub(nk, nk));
        o.lemma_in_sub_child(top, nk);
        o.lemma_in_sub_child(nodek, top);
        o.lemma_in_sub_rank(rk, top);
        assert(o.in_sub(top, top));
        o.lemma_in_sub_siblings(nodek, top, nchk);
        o.lemma_in_sub_siblings(rk, top, nchk);
        o.lemma_in_sub_siblings(top, top, nchk);
        assert(o.in_sub(nchk, nchk));
        assert(o.in_sub(RakeNode::Leaf(other), RakeNode::Leaf(other)));
        o.lemma_in_sub_siblings(RakeNode::Leaf(other), RakeNode::Leaf(other), top);
        o.lemma_up_ok_comp(nch);
        if o.in_sub(nk, nchk) {
            o.lemma_in_sub_rank(nk, nchk);
        }
    }

    /// Moving side `dir` of compress node `n` down into its rake tree, in
    /// place of the path cluster `node` that comes up to take that side,
    /// keeps a forest once the moved side, with all below it, is ranked
    /// under `rake`.
    pub(crate) proof fn lemma_swap_in_rake_shaped(o: &Self, f: &Self, n: usize, dir: int, node: CompNode, rake: usize, n_dir: int, top: RakeNode)
        requires
            o.shaped(),
            n < o.comps.len(),
            0 <= dir < 2,
            0 <= n_dir < 2,
            rake < o.rakes.len(),
            o.comp_ok(node),
            o.comps@[n as int].rake == Some(top),
            o.rakes@[rake as int].ch[n_dir] == RakeNode::Leaf(node),
            o.in_sub(RakeNode::Node(rake), top),
            f.wf(),
            f.swapped_in_rake(o, n, dir, node, rake, n_dir),
            f.rank@ == o.sink_rank(RakeNode::Leaf(o.comps@[n as int].ch[dir]), RakeNode::Node(rake)),
        ensures
            f.shaped(),
    {
        let nchk = RakeNode::Leaf(o.comps@[n as int].ch[dir]);
        let nodek = RakeNode::Leaf(node);
        Self::lemma_swap_in_rake_facts(o, n, dir, node, rake, n_dir, top);
        assert forall|i: usize| i < f.comps.len() implies #[trigger] f.up_ok(RakeNode::Leaf(CompNode::Node(i))) by {
            Self::lemma_swap_in_rake_up(o, f, n, dir, node, rake, n_dir, top, RakeNode::Leaf(CompNode::Node(i)));
        }
        assert forall|i: usize| i < f.edges.len() implies #[trigger] f.up_ok(RakeNode::Leaf(CompNode::Leaf(i))) by {
            Self::lemma_swap_in_rake_up(o, f, n, dir, node, rake, n_dir, top, RakeNode::Leaf(CompNode::Leaf(i)));
        }
        assert forall|i: usize| i < f.rakes.len() implies #[trigger] f.up_ok(RakeNode::Node(i)) by {
            Self::lemma_swap_in_rake_up(o, f, n, dir, node, rake, n_dir, top, RakeNode::Node(i));
        }
        assert forall|i: int| 0 <= i < f.comps.len() implies #[trigger] f.down_ok_comp(i) by {
            assert(o.down_ok_comp(i));
            assert(o.comp_wf(o.comps@[i], i));
            let m = f.comps@[i];
            let om = o.comps@[i];
            Self::lemma_swap_in_rake_parent(o, f, n, dir, node, rake, n_dir, RakeNode::Leaf(om.ch[0]));
            Self::lemma_swap_in_rake_parent(o, f, n, dir, node, rake, n_dir, RakeNode::Leaf(om.ch[1]));
            Self::lemma_swap_in_rake_parent(o, f, n, dir, node, rake, n_dir, nodek);
            if let Some(r) = om.rake {
                Self::lemma_swap_in_rake_parent(o, f, n, dir, node, rake, n_dir, r);
            }
        }
        assert forall|i: int| 0 <= i < f.rakes.len() implies #[trigger] f.down_ok_rake(i) by {
            assert(o.down_ok_rake(i));
            assert(o.rake_wf(o.rakes@[i]));
            let m = f.rakes@[i];
            let om = o.rakes@[i];
            Self::lemma_swap_in_rake_parent(o, f, n, dir, node, rake, n_dir, om.ch[0]);
            Self::lemma_swap_in_rake_parent(o, f, n, dir, node, rake, n_dir, om.ch[1]);
            Self::lemma_swap_in_rake_parent(o, f, n, dir, node, rake, n_dir, nchk);
        }
    }
}

} // verus!
