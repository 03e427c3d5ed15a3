use vstd::prelude::*;
use vstd::set_lib::{set_int_range, lemma_int_range, lemma_len_subset};
use crate::node::{Cluster, TopTree, CompNode, RakeNode, ParentNode, Compress, Rake, set_side};
use crate::parent_dir::{parent_dir_comp, parent_dir_comp_guard, parent_dir_comp_rake, parent_dir_rake};

verus! {

impl<T: Cluster> TopTree<T> {
    /// What `rotate_comp` needs for its pointer changes to be told apart:
    /// `t` is the child of `x` on side `1 - dir`, the child of `t` that moves
    /// is neither of them, and the node above `x` is neither of them.
    pub open(crate) spec fn rotate_comp_hyp(&self, t: usize, x: usize, dir: int) -> bool {
        let moved = self.comps@[t as int].ch[dir];
        &&& self.comps@[x as int].ch[1 - dir] == CompNode::Node(t)
        &&& t != x
        &&& moved != CompNode::Node(x)
        &&& moved != CompNode::Node(t)
        &&& match self.comps@[x as int].par {
            Some(ParentNode::Compress(yy)) => yy != x && yy != t,
            _ => true,
        }
    }

    /// The links of `self` are those of `o` after `t` is rotated above its
    /// parent `x`: `x` takes over the child of `t` on side `dir` on its own
    /// side `1 - dir`, `t` takes `x` as its child on side `dir` and the
    /// former parent of `x` as its parent, and the node above (as a compress
    /// parent, a rake parent, or the compress node whose rake tree it tops)
    /// points at `t` where it pointed at `x`. Every other link, every guard
    /// and every edge's ends and value stay.
    pub open(crate) spec fn rotated_comp(&self, o: &Self, t: usize, x: usize, dir: int) -> bool {
        let moved = o.comps@[t as int].ch[dir];
        let y = o.comps@[x as int].par;
        let pd = o.parent_dir_comp_guard_spec(CompNode::Node(x));
        let rp = o.parent_dir_comp_rake_spec(CompNode::Node(x));
        &&& self.same_sizes(o)
        &&& forall|k: int| 0 <= k < self.comps.len() ==> {
            let n = #[trigger] self.comps@[k];
            let on = o.comps@[k];
            &&& n.ch == if k == x {
                set_side(on.ch, 1 - dir, moved)
            } else if k == t {
                set_side(on.ch, dir, CompNode::Node(x))
            } else if pd is Some && pd.unwrap().1 == k {
                set_side(on.ch, pd.unwrap().0 as int, CompNode::Node(t))
            } else {
                on.ch
            }
            &&& n.par == if k == x {
                Some(ParentNode::Compress(t))
            } else if k == t {
                y
            } else if moved == CompNode::Node(k as usize) {
                Some(ParentNode::Compress(x))
            } else {
                on.par
            }
            &&& n.rake == if pd is None && rp is None && y == Some(ParentNode::Compress(k as usize)) {
                Some(RakeNode::Leaf(CompNode::Node(t)))
            } else {
                on.rake
            }
            &&& n.guard == on.guard
        }
        &&& forall|k: int| 0 <= k < self.rakes.len() ==> {
            let n = #[trigger] self.rakes@[k];
            let on = o.rakes@[k];
            &&& n.ch == if pd is None && rp is Some && rp.unwrap().1 == k {
                set_side(on.ch, rp.unwrap().0 as int, RakeNode::Leaf(CompNode::Node(t)))
            } else {
                on.ch
            }
            &&& n.par == on.par
        }
        &&& forall|k: int| 0 <= k < self.edges.len() ==> {
            let e = #[trigger] self.edges@[k];
            let oe = o.edges@[k];
            &&& e.v == oe.v
            &&& e.val == oe.val
            &&& e.par == if moved == CompNode::Leaf(k as usize) {
                Some(ParentNode::Compress(x))
            } else {
                oe.par
            }
        }
    }
}

impl<T: Cluster> TopTree<T> {
    /// Recomputing boundaries and folds after the pointer changes of a
    /// rotation keeps it a rotation.
    pub(crate) proof fn lemma_links_eq_trans_rotated(s: &Self, f: &Self, o: &Self, t: usize, x: usize, dir: int)
        requires
            f.links_same(s),
            o.rotate_comp_hyp(t, x, dir) ==> s.rotated_comp(o, t, x, dir),
        ensures
            o.rotate_comp_hyp(t, x, dir) ==> f.rotated_comp(o, t, x, dir),
    {
        if o.rotate_comp_hyp(t, x, dir) {
            assert forall|k: int| 0 <= k < f.vertices.len() implies {
                &&& (#[trigger] f.vertices@[k]).val == o.vertices@[k].val
                &&& (o.vertices@[k].handle is Some ==> f.vertices@[k].handle is Some)
            } by {
                assert(s.vertices@[k].val == o.vertices@[k].val);
            }
            assert forall|k: int| 0 <= k < f.comps.len() implies f.comps@[k].ch == s.comps@[k].ch && f.comps@[k].par == s.comps@[k].par
                && f.comps@[k].rake == s.comps@[k].rake && f.comps@[k].guard == s.comps@[k].guard by {
                let n = f.comps@[k];
            }
            assert forall|k: int| 0 <= k < f.rakes.len() implies f.rakes@[k].ch == s.rakes@[k].ch && f.rakes@[k].par == s.rakes@[k].par by {
                let n = f.rakes@[k];
            }
            assert forall|k: int| 0 <= k < f.edges.len() implies f.edges@[k].v == s.edges@[k].v && f.edges@[k].val == s.edges@[k].val
                && f.edges@[k].par == s.edges@[k].par by {
                let e = f.edges@[k];
            }
        }
    }
}

/// The ranks after `top` is rotated above `below`: every rank is doubled
/// and moved up by one, `top` takes the place of `below`, and `below` comes
/// just under it.
pub open(crate) spec fn rot_rank(r: spec_fn(RakeNode) -> int, top: RakeNode, below: RakeNode) -> spec_fn(RakeNode) -> int {
    |k: RakeNode|
        if k == top {
            2 * r(below) + 1
        } else if k == below {
            2 * r(below)
        } else {
            2 * r(k) + 1
        }
}

impl<T: Cluster> TopTree<T> {
    /// A rotation of compress nodes, with the ranks moved along, keeps the
    /// links a forest.
    #[verifier::spinoff_prover]
    pub(crate) proof fn lemma_rotate_comp_shaped(o: &Self, f: &Self, t: usize, x: usize, dir: int)
        requires
            o.shaped(),
            t < o.comps.len(),
            x < o.comps.len(),
            0 <= dir < 2,
            o.rotate_comp_hyp(t, x, dir),
            f.wf(),
            f.rotated_comp(o, t, x, dir),
            f.rank@ == rot_rank(o.rank@, RakeNode::Leaf(CompNode::Node(t)), RakeNode::Leaf(CompNode::Node(x))),
        ensures
            f.shaped(),
    {
        let tk = RakeNode::Leaf(CompNode::Node(t));
        let xk = RakeNode::Leaf(CompNode::Node(x));
        let moved = o.comps@[t as int].ch[dir];
        let y = o.comps@[x as int].par;
        assert(o.down_ok_comp(x as int));
        assert(o.down_ok_comp(t as int));
        assert(o.up_ok(xk));
        assert(o.up_ok(tk));
        assert forall|i: usize| i < f.comps.len() implies #[trigger] f.up_ok(RakeNode::Leaf(CompNode::Node(i))) by {
            let k = RakeNode::Leaf(CompNode::Node(i));
            assert(o.up_ok(k));
            assert(o.down_ok_comp(i as int));
            match o.comps@[i as int].par {
                Some(ParentNode::Compress(p)) => {
                    assert(o.down_ok_comp(p as int));
                },
                Some(ParentNode::Rake(p)) => {
                    assert(o.down_ok_rake(p as int));
                },
                None => {},
            }
        }
        assert forall|i: int| 0 <= i < f.comps.len() implies #[trigger] f.down_ok_comp(i) by {
            assert(o.down_ok_comp(i));
            let n = o.comps@[i];
            o.lemma_up_ok_comp(n.ch[0]);
            o.lemma_up_ok_comp(n.ch[1]);
            if let Some(r) = n.rake {
                o.lemma_up_ok_rake(r);
            }
            if let Some(ParentNode::Compress(p)) = y {
                assert(o.down_ok_comp(p as int));
            }
        }
        assert forall|i: usize| i < f.rakes.len() implies #[trigger] f.up_ok(RakeNode::Node(i)) by {
            let k = RakeNode::Node(i);
            assert(o.up_ok(k));
            match o.rakes@[i as int].par {
                Some(ParentNode::Compress(p)) => {
                    assert(o.down_ok_comp(p as int));
                },
                Some(ParentNode::Rake(p)) => {
                    assert(o.down_ok_rake(p as int));
                },
                None => {},
            }
        }
        assert forall|i: int| 0 <= i < f.rakes.len() implies #[trigger] f.down_ok_rake(i) by {
            assert(o.down_ok_rake(i));
            let n = o.rakes@[i];
            o.lemma_up_ok_rake(n.ch[0]);
            o.lemma_up_ok_rake(n.ch[1]);
        }
        assert forall|i: usize| i < f.edges.len() implies #[trigger] f.up_ok(RakeNode::Leaf(CompNode::Leaf(i))) by {
            let k = RakeNode::Leaf(CompNode::Leaf(i));
            assert(o.up_ok(k));
            match o.edges@[i as int].par {
                Some(ParentNode::Compress(p)) => {
                    assert(o.down_ok_comp(p as int));
                },
                Some(ParentNode::Rake(p)) => {
                    assert(o.down_ok_rake(p as int));
                },
                None => {},
            }
        }
    }
}

impl<T: Cluster> TopTree<T> {
    /// A rotation of compress nodes at or above compress node `t` leaves the
    /// rake tree of `t` where it is.
    pub(crate) proof fn lemma_rot_keeps_rake(o: &Self, f: &Self, top: usize, x: usize, dir: int, t: usize)
        requires
            o.shaped(),
            top < o.comps.len(),
            x < o.comps.len(),
            t < o.comps.len(),
            0 <= dir < 2,
            o.rotate_comp_hyp(top, x, dir),
            f.rotated_comp(o, top, x, dir),
            top == t || (o.rank@)(RakeNode::Leaf(CompNode::Node(t))) < (o.rank@)(RakeNode::Leaf(CompNode::Node(top))),
        ensures
            f.comps@[t as int].rake == o.comps@[t as int].rake,
    {
        assert(o.down_ok_comp(x as int));
        o.lemma_up_ok_comp(CompNode::Node(top));
        o.lemma_up_ok_comp(CompNode::Node(x));
        let m = f.comps@[t as int];
    }
}

impl<T: Cluster> TopTree<T> {
    /// A rotation of rake nodes, with the ranks moved along, keeps the
    /// links a forest.
    pub(crate) proof fn lemma_rotate_rake_shaped(o: &Self, f: &Self, t: usize, x: usize, dir: int)
        requires
            o.shaped(),
            t < o.rakes.len(),
            x < o.rakes.len(),
            0 <= dir < 2,
            o.rotate_rake_hyp(t, x, dir),
            f.wf(),
            f.rotated_rake(o, t, x, dir),
            f.rank@ == rot_rank(o.rank@, RakeNode::Node(t), RakeNode::Node(x)),
        ensures
            f.shaped(),
    {
        let tk = RakeNode::Node(t);
        let xk = RakeNode::Node(x);
        let moved = o.rakes@[t as int].ch[dir];
        let y = o.rakes@[x as int].par;
        assert(o.down_ok_rake(x as int));
        assert(o.down_ok_rake(t as int));
        assert(o.up_ok(xk));
        assert(o.up_ok(tk));
        assert forall|i: usize| i < f.comps.len() implies #[trigger] f.up_ok(RakeNode::Leaf(CompNode::Node(i))) by {
            let k = RakeNode::Leaf(CompNode::Node(i));
            assert(o.up_ok(k));
            assert(o.down_ok_comp(i as int));
            match o.comps@[i as int].par {
                Some(ParentNode::Compress(p)) => {
                    assert(o.down_ok_comp(p as int));
                },
                Some(ParentNode::Rake(p)) => {
                    assert(o.down_ok_rake(p as int));
                },
                None => {},
            }
        }
        assert forall|i: int| 0 <= i < f.comps.len() implies #[trigger] f.down_ok_comp(i) by {
            assert(o.down_ok_comp(i));
            let n = o.comps@[i];
            o.lemma_up_ok_comp(n.ch[0]);
            o.lemma_up_ok_comp(n.ch[1]);
            if let Some(r) = n.rake {
                o.lemma_up_ok_rake(r);
            }
            if let Some(ParentNode::Compress(p)) = y {
                assert(o.down_ok_comp(p as int));
            }
            if let Some(ParentNode::Rake(p)) = y {
                assert(o.down_ok_rake(p as int));
            }
        }
        assert forall|i: usize| i < f.rakes.len() implies #[trigger] f.up_ok(RakeNode::Node(i)) by {
            let k = RakeNode::Node(i);
            assert(o.up_ok(k));
            match o.rakes@[i as int].par {
                Some(ParentNode::Compress(p)) => {
                    assert(o.down_ok_comp(p as int));
                },
                Some(ParentNode::Rake(p)) => {
                    assert(o.down_ok_rake(p as int));
                },
                None => {},
            }
        }
        assert forall|i: int| 0 <= i < f.rakes.len() implies #[trigger] f.down_ok_rake(i) by {
            assert(o.down_ok_rake(i));
            let n = o.rakes@[i];
            o.lemma_up_ok_rake(n.ch[0]);
            o.lemma_up_ok_rake(n.ch[1]);
            if let Some(ParentNode::Compress(p)) = y {
                assert(o.down_ok_comp(p as int));
            }
            if let Some(ParentNode::Rake(p)) = y {
                assert(o.down_ok_rake(p as int));
            }
        }
        assert forall|i: usize| i < f.edges.len() implies #[trigger] f.up_ok(RakeNode::Leaf(CompNode::Leaf(i))) by {
            let k = RakeNode::Leaf(CompNode::Leaf(i));
            assert(o.up_ok(k));
            match o.edges@[i as int].par {
                Some(ParentNode::Compress(p)) => {
                    assert(o.down_ok_comp(p as int));
                },
                Some(ParentNode::Rake(p)) => {
                    assert(o.down_ok_rake(p as int));
                },
                None => {},
            }
        }
    }
}

/// Rotates compress node `t` above its parent `x`, where `t` is the child of
/// `x` on side `1 - dir`; `t`'s child on side `dir` moves over to `x`.
/// The node above `x` (a compress node, or a rake node that holds `x` as a
/// leaf, or the compress node whose rake `x` is) then points at `t`.
pub fn rotate_comp<T: Cluster>(tree: &mut TopTree<T>, t: usize, x: usize, dir: usize)
    requires
        old(tree).wf(),
        t < old(tree).cs().len(),
        x < old(tree).cs().len(),
        dir < 2,
    ensures
        final(tree).wf(),
        final(tree).same_sizes(old(tree)),
        old(tree).rotate_comp_hyp(t, x, dir as int) ==> final(tree).rotated_comp(old(tree), t, x, dir as int),
        final(tree).edges_kept(old(tree)),
        final(tree).ranks() == rot_rank(old(tree).ranks(), RakeNode::Leaf(CompNode::Node(t)), RakeNode::Leaf(CompNode::Node(x))),
        old(tree).shaped() && old(tree).rotate_comp_hyp(t, x, dir as int) ==> final(tree).shaped(),
        old(tree).shaped() && old(tree).rotate_comp_hyp(t, x, dir as int)
            ==> final(tree).comp_fixed(x as int) && final(tree).comp_fixed(t as int),
{
    let y = tree.comp(x).par;

    let par = parent_dir_comp_guard(tree, CompNode::Node(x));
    let rake_par = parent_dir_comp_rake(tree, CompNode::Node(x));

    relink_comp(tree, t, x, dir, y, par, rake_par);
    let ghost relinked = *tree;
    Compress::fix(tree, x);
    let ghost s1 = *tree;
    Compress::fix(tree, t);
    let ghost s2 = *tree;
    // the node above `t` that is fixed last, if any
    let ghost mut y3: Option<ParentNode> = None;
    if let Some((xdir, yy)) = par {
        if !tree.comp(yy).guard {
            Compress::fix(tree, yy);
            proof {
                y3 = Some(ParentNode::Compress(yy));
            }
        }
    } else if let Some((xdir, yy)) = rake_par {
        Rake::fix(tree, yy);
        proof {
            y3 = Some(ParentNode::Rake(yy));
        }
    } else if let Some(ParentNode::Compress(yy)) = y {
        if !tree.comp(yy).guard {
            Compress::fix(tree, yy);
            proof {
                y3 = Some(ParentNode::Compress(yy));
            }
        }
    }
    let ghost s3 = *tree;
    tree.rank = Ghost(rot_rank(old(tree).rank@, RakeNode::Leaf(CompNode::Node(t)), RakeNode::Leaf(CompNode::Node(x))));
    proof {
        TopTree::lemma_links_eq_trans_rotated(&relinked, tree, old(tree), t, x, dir as int);
        if old(tree).shaped() && old(tree).rotate_comp_hyp(t, x, dir as int) {
            TopTree::lemma_rotate_comp_shaped(old(tree), tree, t, x, dir as int);
            let tn = tree.comps@[t as int];
            TopTree::lemma_rotate_refix(&relinked, &s1, &s2, &s3, tree, t, x, y3);
        }
    }
}

impl<T: Cluster> TopTree<T> {
    /// After a rotation, fixing `x` and then `t`, and then perhaps the node
    /// above `t`, leaves both `x` and `t` fixed: in the forest that results,
    /// neither is a child of itself, `t` is no child of `x`, and the node
    /// above `t` is no child of either.
    pub(crate) proof fn lemma_rotate_refix(r: &Self, s1: &Self, s2: &Self, s3: &Self, f: &Self, t: usize, x: usize, y3: Option<ParentNode>)
        requires
            r.wf(),
            t < r.comps.len(),
            x < r.comps.len(),
            t != x,
            s1.wf(),
            s1.fixed_at(r, CompNode::Node(x)),
            s1.links_eq(r),
            s2.wf(),
            s2.fixed_at(s1, CompNode::Node(t)),
            s2.links_eq(s1),
            s3.wf(),
            s3.links_eq(s2),
            match y3 {
                None => *s3 == *s2,
                Some(ParentNode::Compress(j)) => j < s2.comps.len() && s3.fixed_at(s2, CompNode::Node(j)),
                Some(ParentNode::Rake(j)) => j < s2.rakes.len() && s3.rake_fixed_at(s2, RakeNode::Node(j)),
            },
            y3 is Some ==> f.comps@[t as int].par == y3,
            f.shaped(),
            f.comps@ == s3.comps@,
            f.edges@ == s3.edges@,
            f.rakes@ == s3.rakes@,
            f.vertices@ == s3.vertices@,
            f.comps@[x as int].par == Some(ParentNode::Compress(t)),
            f.links_same(s3),
        ensures
            f.comp_fixed(x as int),
            f.comp_fixed(t as int),
    {
        let xn = f.comps@[x as int];
        let tn = f.comps@[t as int];
        assert(f.comp_wf(xn, x as int));
        assert(f.comp_wf(tn, t as int));
        assert(f.down_ok_comp(x as int));
        assert(f.down_ok_comp(t as int));
        f.lemma_up_ok_comp(CompNode::Node(x));
        f.lemma_up_ok_comp(CompNode::Node(t));
        f.lemma_up_ok_comp(xn.ch[0]);
        f.lemma_up_ok_comp(xn.ch[1]);
        f.lemma_up_ok_comp(tn.ch[0]);
        f.lemma_up_ok_comp(tn.ch[1]);
        if let Some(rk) = xn.rake {
            f.lemma_up_ok_rake(rk);
        }
        if let Some(rk) = tn.rake {
            f.lemma_up_ok_rake(rk);
        }
        assert(r.comps@[x as int].ch == xn.ch && r.comps@[x as int].rake == xn.rake);
        assert(r.comps@[t as int].ch == tn.ch && r.comps@[t as int].rake == tn.rake);
        assert(s1.comps@[x as int].ch == xn.ch && s1.comps@[x as int].rake == xn.rake);
        assert(s1.comps@[t as int].ch == tn.ch && s1.comps@[t as int].rake == tn.rake);
        assert(s2.comps@[x as int].ch == xn.ch && s2.comps@[x as int].rake == xn.rake);
        assert(s2.comps@[t as int].ch == tn.ch && s2.comps@[t as int].rake == tn.rake);
        Self::lemma_fix_makes_fixed(r, s1, x);
        Self::lemma_fix_makes_fixed(s1, s2, t);
        Self::lemma_fix_keeps_fixed(s1, s2, t, x);
        match y3 {
            Some(ParentNode::Compress(j)) => {
                Self::lemma_fix_keeps_fixed(s2, s3, j, x);
                Self::lemma_fix_keeps_fixed(s2, s3, j, t);
            },
            Some(ParentNode::Rake(j)) => {
                Self::lemma_rake_fix_keeps_fixed(s2, s3, j, x);
                Self::lemma_rake_fix_keeps_fixed(s2, s3, j, t);
            },
            None => {},
        }
        assert(f.comps@[x as int] == s3.comps@[x as int]);
    }
}

/// The pointer changes of `rotate_comp`, given the parent `y` of `x` and
/// where `x` stands below it (`par` for a compress parent, `rake_par` for a
/// rake parent).
#[verifier::spinoff_prover]
#[verifier::rlimit(40)]
fn relink_comp<T: Cluster>(
    tree: &mut TopTree<T>,
    t: usize,
    x: usize,
    dir: usize,
    y: Option<ParentNode>,
    par: Option<(usize, usize)>,
    rake_par: Option<(usize, usize)>,
)
    requires
        old(tree).wf(),
        t < old(tree).cs().len(),
        x < old(tree).cs().len(),
        dir < 2,
        y == old(tree).cs()[x as int].par,
        par == old(tree).parent_dir_comp_guard_spec(CompNode::Node(x)),
        rake_par == old(tree).parent_dir_comp_rake_spec(CompNode::Node(x)),
        par matches Some((d, p)) ==> d < 2 && p < old(tree).cs().len(),
        rake_par matches Some((d, p)) ==> d < 2 && p < old(tree).rks().len(),
    ensures
        final(tree).wf(),
        final(tree).same_sizes(old(tree)),
        old(tree).rotate_comp_hyp(t, x, dir as int) ==> final(tree).rotated_comp(old(tree), t, x, dir as int),
        final(tree).edges_kept(old(tree)),
{
    let moved = tree.comp(t).ch[dir];
    tree.set_comp_child(x, 1 - dir, moved);
    moved.set_parent(tree, Some(ParentNode::Compress(x)));
    tree.set_comp_child(t, dir, CompNode::Node(x));
    CompNode::Node(x).set_parent(tree, Some(ParentNode::Compress(t)));
    CompNode::Node(t).set_parent(tree, y);
    if let Some((xdir, yy)) = par {
        tree.set_comp_child(yy, xdir, CompNode::Node(t));
    } else if let Some((xdir, yy)) = rake_par {
        tree.set_rake_child(yy, xdir, RakeNode::Leaf(CompNode::Node(t)));
    } else if let Some(ParentNode::Compress(yy)) = y {
        tree.set_comp_rake(yy, Some(RakeNode::Leaf(CompNode::Node(t))));
    }
}

impl<T: Cluster> TopTree<T> {
    /// What `rotate_rake` needs for its pointer changes to be told apart:
    /// `t` is the child of `x` on side `1 - dir`, the member of `t` that
    /// moves is neither of them, and the node above `x` is neither of them.
    pub open(crate) spec fn rotate_rake_hyp(&self, t: usize, x: usize, dir: int) -> bool {
        let moved = self.rakes@[t as int].ch[dir];
        &&& self.rakes@[x as int].ch[1 - dir] == RakeNode::Node(t)
        &&& t != x
        &&& moved != RakeNode::Node(x)
        &&& moved != RakeNode::Node(t)
        &&& match self.rakes@[x as int].par {
            Some(ParentNode::Rake(yy)) => yy != x && yy != t,
            _ => true,
        }
    }

    /// The links of `self` are those of `o` after rake node `t` is rotated
    /// above its parent `x`: `x` takes over the member of `t` on side `dir`
    /// on its own side `1 - dir`, `t` takes `x` on side `dir` and the former
    /// parent of `x` as its parent, and the node above (a rake parent, or
    /// the compress node whose rake tree `x` topped) points at `t` where it
    /// pointed at `x`. Every other link stays.
    pub open(crate) spec fn rotated_rake(&self, o: &Self, t: usize, x: usize, dir: int) -> bool {
        let moved = o.rakes@[t as int].ch[dir];
        let y = o.rakes@[x as int].par;
        let pd = o.parent_dir_rake_spec(RakeNode::Node(x));
        &&& self.same_sizes(o)
        &&& forall|k: int| 0 <= k < self.rakes.len() ==> {
            let n = #[trigger] self.rakes@[k];
            let on = o.rakes@[k];
            &&& n.ch == if k == x {
                set_side(on.ch, 1 - dir, moved)
            } else if k == t {
                set_side(on.ch, dir, RakeNode::Node(x))
            } else if pd is Some && pd.unwrap().1 == k {
                set_side(on.ch, pd.unwrap().0 as int, RakeNode::Node(t))
            } else {
                on.ch
            }
            &&& n.par == if k == x {
                Some(ParentNode::Rake(t))
            } else if k == t {
                y
            } else if moved == RakeNode::Node(k as usize) {
                Some(ParentNode::Rake(x))
            } else {
                on.par
            }
        }
        &&& forall|k: int| 0 <= k < self.comps.len() ==> {
            let n = #[trigger] self.comps@[k];
            let on = o.comps@[k];
            &&& n.ch == on.ch
            &&& n.rake == if pd is None && y == Some(ParentNode::Compress(k as usize)) {
                Some(RakeNode::Node(t))
            } else {
                on.rake
            }
            &&& n.par == if moved == RakeNode::Leaf(CompNode::Node(k as usize)) {
                Some(ParentNode::Rake(x))
            } else {
                on.par
            }
            &&& n.guard == on.guard
        }
        &&& forall|k: int| 0 <= k < self.edges.len() ==> {
            let e = #[trigger] self.edges@[k];
            let oe = o.edges@[k];
            &&& e.v == oe.v
            &&& e.val == oe.val
            &&& e.par == if moved == RakeNode::Leaf(CompNode::Leaf(k as usize)) {
                Some(ParentNode::Rake(x))
            } else {
                oe.par
            }
        }
    }

    /// Recomputing boundaries and folds after the pointer changes of a
    /// rake rotation keeps it a rotation.
    pub(crate) proof fn lemma_links_eq_trans_rotated_rake(s: &Self, f: &Self, o: &Self, t: usize, x: usize, dir: int)
        requires
            f.links_same(s),
            o.rotate_rake_hyp(t, x, dir) ==> s.rotated_rake(o, t, x, dir),
        ensures
            o.rotate_rake_hyp(t, x, dir) ==> f.rotated_rake(o, t, x, dir),
    {
        if o.rotate_rake_hyp(t, x, dir) {
            assert forall|k: int| 0 <= k < f.vertices.len() implies {
                &&& (#[trigger] f.vertices@[k]).val == o.vertices@[k].val
                &&& (o.vertices@[k].handle is Some ==> f.vertices@[k].handle is Some)
            } by {
                assert(s.vertices@[k].val == o.vertices@[k].val);
            }
            assert forall|k: int| 0 <= k < f.comps.len() implies f.comps@[k].ch == s.comps@[k].ch && f.comps@[k].par == s.comps@[k].par
                && f.comps@[k].rake == s.comps@[k].rake && f.comps@[k].guard == s.comps@[k].guard by {
                let n = f.comps@[k];
            }
            assert forall|k: int| 0 <= k < f.rakes.len() implies f.rakes@[k].ch == s.rakes@[k].ch && f.rakes@[k].par == s.rakes@[k].par by {
                let n = f.rakes@[k];
            }
            assert forall|k: int| 0 <= k < f.edges.len() implies f.edges@[k].v == s.edges@[k].v && f.edges@[k].val == s.edges@[k].val
                && f.edges@[k].par == s.edges@[k].par by {
                let e = f.edges@[k];
            }
        }
    }
}

/// Rotates rake node `t` above its parent `x`, where `t` is the child of
/// `x` on side `1 - dir`; `t`'s member on side `dir` moves over to `x`.
pub fn rotate_rake<T: Cluster>(tree: &mut TopTree<T>, t: usize, x: usize, dir: usize)
    requires
        old(tree).wf(),
        t < old(tree).rks().len(),
        x < old(tree).rks().len(),
        dir < 2,
    ensures
        final(tree).wf(),
        final(tree).same_sizes(old(tree)),
        old(tree).rotate_rake_hyp(t, x, dir as int) ==> final(tree).rotated_rake(old(tree), t, x, dir as int),
        final(tree).edges_kept(old(tree)),
        final(tree).ranks() == rot_rank(old(tree).ranks(), RakeNode::Node(t), RakeNode::Node(x)),
        old(tree).shaped() && old(tree).rotate_rake_hyp(t, x, dir as int) ==> final(tree).shaped(),
        old(tree).shaped() && old(tree).rotate_rake_hyp(t, x, dir as int)
            ==> final(tree).rake_fixed(x as int) && final(tree).rake_fixed(t as int),
{
    let y = tree.rake_at(x).par;

    let par = parent_dir_rake(tree, RakeNode::Node(x));

    relink_rake(tree, t, x, dir, y, par);
    let ghost relinked = *tree;
    Rake::fix(tree, x);
    let ghost s1 = *tree;
    Rake::fix(tree, t);
    let ghost s2 = *tree;
    // the node above `t` that is fixed last, if any
    let ghost mut y3: Option<ParentNode> = None;
    if let Some((xdir, yy)) = par {
        Rake::fix(tree, yy);
        proof {
            y3 = Some(ParentNode::Rake(yy));
        }
    } else if let Some(ParentNode::Compress(yy)) = y {
        if !tree.comp(yy).guard {
            Compress::fix(tree, yy);
            proof {
                y3 = Some(ParentNode::Compress(yy));
            }
        }
    }
    let ghost s3 = *tree;
    tree.rank = Ghost(rot_rank(old(tree).rank@, RakeNode::Node(t), RakeNode::Node(x)));
    proof {
        TopTree::lemma_links_eq_trans_rotated_rake(&relinked, tree, old(tree), t, x, dir as int);
        if old(tree).shaped() && old(tree).rotate_rake_hyp(t, x, dir as int) {
            TopTree::lemma_rotate_rake_shaped(old(tree), tree, t, x, dir as int);
            TopTree::lemma_rotate_rake_refix(&relinked, &s1, &s2, &s3, tree, t, x, y3);
        }
    }
}

impl<T: Cluster> TopTree<T> {
    /// After a rotation of rake nodes, fixing `x` and then `t`, and then
    /// perhaps the node above `t`, leaves both `x` and `t` fixed.
    pub(crate) proof fn lemma_rotate_rake_refix(r: &Self, s1: &Self, s2: &Self, s3: &Self, f: &Self, t: usize, x: usize, y3: Option<ParentNode>)
        requires
            r.wf(),
            t < r.rakes.len(),
            x < r.rakes.len(),
            t != x,
            s1.wf(),
            s1.rake_fixed_at(r, RakeNode::Node(x)),
            s1.links_eq(r),
            s2.wf(),
            s2.rake_fixed_at(s1, RakeNode::Node(t)),
            s2.links_eq(s1),
            s3.wf(),
            s3.links_eq(s2),
            match y3 {
                None => *s3 == *s2,
                Some(ParentNode::Compress(j)) => j < s2.comps.len() && s3.fixed_at(s2, CompNode::Node(j)),
                Some(ParentNode::Rake(j)) => j < s2.rakes.len() && s3.rake_fixed_at(s2, RakeNode::Node(j)),
            },
            y3 is Some ==> f.rakes@[t as int].par == y3,
            f.shaped(),
            f.comps@ == s3.comps@,
            f.edges@ == s3.edges@,
            f.rakes@ == s3.rakes@,
            f.vertices@ == s3.vertices@,
            f.rakes@[x as int].par == Some(ParentNode::Rake(t)),
        ensures
            f.rake_fixed(x as int),
            f.rake_fixed(t as int),
    {
        let xn = f.rakes@[x as int];
        let tn = f.rakes@[t as int];
        assert(f.rake_wf(xn));
        assert(f.rake_wf(tn));
        assert(f.down_ok_rake(x as int));
        assert(f.down_ok_rake(t as int));
        f.lemma_up_ok_rake(RakeNode::Node(x));
        f.lemma_up_ok_rake(RakeNode::Node(t));
        f.lemma_up_ok_rake(xn.ch[0]);
        f.lemma_up_ok_rake(xn.ch[1]);
        f.lemma_up_ok_rake(tn.ch[0]);
        f.lemma_up_ok_rake(tn.ch[1]);
        assert(r.rakes@[x as int].ch == xn.ch && r.rakes@[t as int].ch == tn.ch);
        assert(s1.rakes@[x as int].ch == xn.ch && s1.rakes@[t as int].ch == tn.ch);
        assert(s2.rakes@[x as int].ch == xn.ch && s2.rakes@[t as int].ch == tn.ch);
        Self::lemma_rake_fix_makes_fixed(r, s1, x);
        Self::lemma_rake_fix_makes_fixed(s1, s2, t);
        Self::lemma_rake_fix_keeps_rake_fixed(s1, s2, t, x);
        match y3 {
            Some(ParentNode::Compress(j)) => {
                Self::lemma_fix_keeps_rake_fixed(s2, s3, j, x);
                Self::lemma_fix_keeps_rake_fixed(s2, s3, j, t);
            },
            Some(ParentNode::Rake(j)) => {
                Self::lemma_rake_fix_keeps_rake_fixed(s2, s3, j, x);
                Self::lemma_rake_fix_keeps_rake_fixed(s2, s3, j, t);
            },
            None => {},
        }
    }
}

/// The pointer changes of `rotate_rake`, given the parent `y` of `x` and
/// where `x` stands below it when that parent is a rake node.
#[verifier::spinoff_prover]
#[verifier::rlimit(40)]
fn relink_rake<T: Cluster>(
    tree: &mut TopTree<T>,
    t: usize,
    x: usize,
    dir: usize,
    y: Option<ParentNode>,
    par: Option<(usize, usize)>,
)
    requires
        old(tree).wf(),
        t < old(tree).rks().len(),
        x < old(tree).rks().len(),
        dir < 2,
        y == old(tree).rks()[x as int].par,
        par == old(tree).parent_dir_rake_spec(RakeNode::Node(x)),
        par matches Some((d, p)) ==> d < 2 && p < old(tree).rks().len(),
        old(tree).parent_ok(y),
    ensures
        final(tree).wf(),
        final(tree).same_sizes(old(tree)),
        old(tree).rotate_rake_hyp(t, x, dir as int) ==> final(tree).rotated_rake(old(tree), t, x, dir as int),
        final(tree).edges_kept(old(tree)),
{
    let moved = tree.rake_at(t).ch[dir];
    tree.set_rake_child(x, 1 - dir, moved);
    moved.set_parent(tree, Some(ParentNode::Rake(x)));
    tree.set_rake_child(t, dir, RakeNode::Node(x));
    RakeNode::Node(x).set_parent(tree, Some(ParentNode::Rake(t)));
    RakeNode::Node(t).set_parent(tree, y);
    if let Some((xdir, yy)) = par {
        tree.set_rake_child(yy, xdir, RakeNode::Node(t));
    } else if let Some(ParentNode::Compress(yy)) = y {
        tree.set_comp_rake(yy, Some(RakeNode::Node(t)));
    }
}

impl<T: Cluster> TopTree<T> {
    /// In a forest, a compress node `t` on side `d` of compress node `q` can
    /// be rotated above it.
    pub(crate) proof fn lemma_rotate_comp_hyp(&self, t: usize, q: usize, d: int)
        requires
            self.shaped(),
            t < self.comps.len(),
            q < self.comps.len(),
            0 <= d < 2,
            self.comps@[q as int].ch[d] == CompNode::Node(t),
        ensures
            self.rotate_comp_hyp(t, q, 1 - d),
    {
        assert(self.down_ok_comp(q as int));
        assert(self.up_ok(RakeNode::Leaf(CompNode::Node(t))));
        assert(self.up_ok(RakeNode::Leaf(CompNode::Node(q))));
        assert(self.down_ok_comp(t as int));
        self.lemma_up_ok_comp(self.comps@[t as int].ch[0]);
        self.lemma_up_ok_comp(self.comps@[t as int].ch[1]);
    }

    /// In a forest, a rake node `t` on side `d` of rake node `q` can be
    /// rotated above it.
    pub(crate) proof fn lemma_rotate_rake_hyp(&self, t: usize, q: usize, d: int)
        requires
            self.shaped(),
            t < self.rakes.len(),
            q < self.rakes.len(),
            0 <= d < 2,
            self.rakes@[q as int].ch[d] == RakeNode::Node(t),
        ensures
            self.rotate_rake_hyp(t, q, 1 - d),
    {
        assert(self.down_ok_rake(q as int));
        assert(self.up_ok(RakeNode::Node(t)));
        assert(self.up_ok(RakeNode::Node(q)));
        assert(self.down_ok_rake(t as int));
        self.lemma_up_ok_rake(self.rakes@[t as int].ch[0]);
        self.lemma_up_ok_rake(self.rakes@[t as int].ch[1]);
    }

    /// The compress nodes ranked above compress node `t`.
    pub open(crate) spec fn above_comp(&self, t: usize) -> Set<int> {
        Set::new(
            |i: int|
                0 <= i < self.comps.len() && (self.rank@)(RakeNode::Leaf(CompNode::Node(i as usize)))
                    > (self.rank@)(RakeNode::Leaf(CompNode::Node(t))),
        )
    }

    /// The rake nodes ranked above rake node `t`.
    pub open(crate) spec fn above_rake(&self, t: usize) -> Set<int> {
        Set::new(
            |i: int|
                0 <= i < self.rakes.len() && (self.rank@)(RakeNode::Node(i as usize)) > (self.rank@)(RakeNode::Node(t)),
        )
    }

    /// Fewer compress nodes than there are lie above `t`.
    pub(crate) proof fn lemma_above_comp_bound(&self, t: usize)
        requires
            t < self.comps.len(),
        ensures
            self.above_comp(t).finite(),
            self.above_comp(t).len() < self.comps.len(),
    {
        lemma_int_range(0, self.comps.len() as int);
        let all = set_int_range(0, self.comps.len() as int);
        assert(self.above_comp(t).subset_of(all.remove(t as int)));
        lemma_len_subset(self.above_comp(t), all.remove(t as int));
    }

    /// Fewer rake nodes than there are lie above `t`.
    pub(crate) proof fn lemma_above_rake_bound(&self, t: usize)
        requires
            t < self.rakes.len(),
        ensures
            self.above_rake(t).finite(),
            self.above_rake(t).len() < self.rakes.len(),
    {
        lemma_int_range(0, self.rakes.len() as int);
        let all = set_int_range(0, self.rakes.len() as int);
        assert(self.above_rake(t).subset_of(all.remove(t as int)));
        lemma_len_subset(self.above_rake(t), all.remove(t as int));
    }

    /// Rotating `t` above `x`, which is ranked above it, leaves fewer
    /// compress nodes above `t`.
    pub(crate) proof fn lemma_above_comp_rot_top(o: &Self, f: &Self, t: usize, x: usize)
        requires
            t < o.comps.len(),
            x < o.comps.len(),
            f.comps.len() == o.comps.len(),
            (o.rank@)(RakeNode::Leaf(CompNode::Node(x))) > (o.rank@)(RakeNode::Leaf(CompNode::Node(t))),
            f.rank@ == rot_rank(o.rank@, RakeNode::Leaf(CompNode::Node(t)), RakeNode::Leaf(CompNode::Node(x))),
        ensures
            f.above_comp(t).len() < o.above_comp(t).len(),
    {
        o.lemma_above_comp_bound(t);
        assert(f.above_comp(t).subset_of(o.above_comp(t).remove(x as int)));
        lemma_len_subset(f.above_comp(t), o.above_comp(t).remove(x as int));
    }

    /// Rotating two nodes both ranked above `t` leaves the compress nodes
    /// above `t` as they were.
    pub(crate) proof fn lemma_above_comp_rot_other(o: &Self, f: &Self, t: usize, a: usize, b: usize)
        requires
            t != a,
            t != b,
            f.comps.len() == o.comps.len(),
            (o.rank@)(RakeNode::Leaf(CompNode::Node(a))) > (o.rank@)(RakeNode::Leaf(CompNode::Node(t))),
            (o.rank@)(RakeNode::Leaf(CompNode::Node(b))) > (o.rank@)(RakeNode::Leaf(CompNode::Node(t))),
            f.rank@ == rot_rank(o.rank@, RakeNode::Leaf(CompNode::Node(a)), RakeNode::Leaf(CompNode::Node(b))),
        ensures
            f.above_comp(t) == o.above_comp(t),
    {
        assert(f.above_comp(t) =~= o.above_comp(t));
    }

    /// Rotating `t` above `x`, which is ranked above it, leaves fewer rake
    /// nodes above `t`.
    pub(crate) proof fn lemma_above_rake_rot_top(o: &Self, f: &Self, t: usize, x: usize)
        requires
            t < o.rakes.len(),
            x < o.rakes.len(),
            f.rakes.len() == o.rakes.len(),
            (o.rank@)(RakeNode::Node(x)) > (o.rank@)(RakeNode::Node(t)),
            f.rank@ == rot_rank(o.rank@, RakeNode::Node(t), RakeNode::Node(x)),
        ensures
            f.above_rake(t).len() < o.above_rake(t).len(),
    {
        o.lemma_above_rake_bound(t);
        assert(f.above_rake(t).subset_of(o.above_rake(t).remove(x as int)));
        lemma_len_subset(f.above_rake(t), o.above_rake(t).remove(x as int));
    }

    /// Rotating two rake nodes both ranked above `t` leaves the rake nodes
    /// above `t` as they were.
    pub(crate) proof fn lemma_above_rake_rot_other(o: &Self, f: &Self, t: usize, a: usize, b: usize)
        requires
            t != a,
            t != b,
            f.rakes.len() == o.rakes.len(),
            (o.rank@)(RakeNode::Node(a)) > (o.rank@)(RakeNode::Node(t)),
            (o.rank@)(RakeNode::Node(b)) > (o.rank@)(RakeNode::Node(t)),
            f.rank@ == rot_rank(o.rank@, RakeNode::Node(a), RakeNode::Node(b)),
        ensures
            f.above_rake(t) == o.above_rake(t),
    {
        assert(f.above_rake(t) =~= o.above_rake(t));
    }
}

/// Splays compress node `t` to the top of its compress tree, stopping below
/// a guarded node. Each step climbs one or two levels; at most as many steps
/// are taken as there are compress nodes.
pub fn splay_comp<T: Cluster>(tree: &mut TopTree<T>, t: usize)
    requires
        old(tree).wf(),
        t < old(tree).cs().len(),
    ensures
        final(tree).wf(),
        final(tree).same_sizes(old(tree)),
        final(tree).edges_kept(old(tree)),
        old(tree).shaped() ==> final(tree).shaped() && final(tree).parent_dir_comp_spec(CompNode::Node(t)) is None,
        old(tree).shaped() ==> forall|k: RakeNode, a: RakeNode|
            old(tree).rake_ok(k) && old(tree).rake_ok(a) && #[trigger] old(tree).in_sub(a, RakeNode::Leaf(CompNode::Node(t)))
                && #[trigger] old(tree).in_sub(k, a) ==> final(tree).in_sub(k, a) && final(tree).in_sub(a, RakeNode::Leaf(CompNode::Node(t))),
        old(tree).shaped() ==> final(tree).cs()[t as int].rake == old(tree).cs()[t as int].rake,
        old(tree).shaped() && old(tree).parent_dir_comp_spec(CompNode::Node(t)) is Some ==> final(tree).comp_fixed(t as int),
{
    Compress::push(tree, t);
    let ghost start = *tree;
    let mut fuel = tree.comps.len();
    proof {
        tree.lemma_above_comp_bound(t);
    }
    // whether `t` has been rotated up yet
    let ghost mut rotated = false;
    while fuel > 0
        invariant_except_break
            start.shaped() ==> tree.above_comp(t).len() < fuel,
        invariant
            !rotated ==> *tree == start,
            start.shaped() && rotated ==> tree.comp_fixed(t as int),
            tree.wf(),
            t < tree.comps.len(),
            tree.same_sizes(&start),
            tree.edges_kept(&start),
            start.shaped() ==> tree.shaped(),
            start.shaped() ==> forall|k: RakeNode, a: RakeNode|
                start.rake_ok(k) && start.rake_ok(a) && #[trigger] start.in_sub(a, RakeNode::Leaf(CompNode::Node(t)))
                    && #[trigger] start.in_sub(k, a) ==> tree.in_sub(k, a) && tree.in_sub(a, RakeNode::Leaf(CompNode::Node(t))),
            start.shaped() ==> tree.comps@[t as int].rake == start.comps@[t as int].rake,
        ensures
            start.shaped() && start.parent_dir_comp_spec(CompNode::Node(t)) is Some ==> tree.comp_fixed(t as int),
            tree.wf(),
            tree.same_sizes(&start),
            tree.edges_kept(&start),
            start.shaped() ==> tree.shaped() && tree.parent_dir_comp_spec(CompNode::Node(t)) is None,
            start.shaped() ==> forall|k: RakeNode, a: RakeNode|
                start.rake_ok(k) && start.rake_ok(a) && #[trigger] start.in_sub(a, RakeNode::Leaf(CompNode::Node(t)))
                    && #[trigger] start.in_sub(k, a) ==> tree.in_sub(k, a) && tree.in_sub(a, RakeNode::Leaf(CompNode::Node(t))),
            start.shaped() ==> tree.comps@[t as int].rake == start.comps@[t as int].rake,
        decreases fuel,
    {
        fuel = fuel - 1;
        let q = match parent_dir_comp(tree, CompNode::Node(t)) {
            Some((_, q)) => q,
            None => break,
        };
        let ghost s0 = *tree;
        proof {
            if start.shaped() {
                assert(s0.up_ok(RakeNode::Leaf(CompNode::Node(t))));
                s0.lemma_above_comp_bound(t);
            }
        }
        if let Some((_, r)) = parent_dir_comp(tree, CompNode::Node(q)) {
            if let Some(rp) = tree.comp(r).par {
                rp.push(tree);
            }
            Compress::push(tree, r);
            Compress::push(tree, q);
            Compress::push(tree, t);
            let qt_dir = parent_dir_comp(tree, CompNode::Node(t)).unwrap().0;
            let rq_dir = parent_dir_comp(tree, CompNode::Node(q)).unwrap().0;
            proof {
                if start.shaped() {
                    assert(s0.up_ok(RakeNode::Leaf(CompNode::Node(q))));
                }
            }
            if rq_dir == qt_dir {
                proof {
                    if start.shaped() {
                        s0.lemma_rotate_comp_hyp(q, r, rq_dir as int);
                    }
                }
                let ghost before = *tree;
                rotate_comp(tree, q, r, 1 - rq_dir);
                proof {
                    TopTree::lemma_edges_kept_trans(&start, &before, tree);
                }
                proof {
                    if start.shaped() {
                        TopTree::lemma_sub_rot_comp(&before, tree, q, r, (1 - rq_dir) as int, t);
                        TopTree::lemma_rot_keeps_rake(&before, tree, q, r, (1 - rq_dir) as int, t);
                    }
                }
                let ghost s2 = *tree;
                proof {
                    if start.shaped() {
                        TopTree::lemma_above_comp_rot_other(&s0, &s2, t, q, r);
                        s2.lemma_rotate_comp_hyp(t, q, qt_dir as int);
                        assert(s2.up_ok(RakeNode::Leaf(CompNode::Node(t))));
                    }
                }
                let ghost before = *tree;
                rotate_comp(tree, t, q, 1 - qt_dir);
                proof {
                    TopTree::lemma_edges_kept_trans(&start, &before, tree);
                }
                proof {
                    if start.shaped() {
                        TopTree::lemma_sub_rot_comp(&before, tree, t, q, (1 - qt_dir) as int, t);
                        TopTree::lemma_rot_keeps_rake(&before, tree, t, q, (1 - qt_dir) as int, t);
                    }
                }
                proof {
                    if start.shaped() {
                        TopTree::lemma_above_comp_rot_top(&s2, tree, t, q);
                    }
                }
            } else {
                proof {
                    if start.shaped() {
                        s0.lemma_rotate_comp_hyp(t, q, qt_dir as int);
                    }
                }
                let ghost before = *tree;
                rotate_comp(tree, t, q, 1 - qt_dir);
                proof {
                    TopTree::lemma_edges_kept_trans(&start, &before, tree);
                }
                proof {
                    if start.shaped() {
                        TopTree::lemma_sub_rot_comp(&before, tree, t, q, (1 - qt_dir) as int, t);
                        TopTree::lemma_rot_keeps_rake(&before, tree, t, q, (1 - qt_dir) as int, t);
                    }
                }
                let ghost s2 = *tree;
                proof {
                    if start.shaped() {
                        TopTree::lemma_above_comp_rot_top(&s0, &s2, t, q);
                        s2.lemma_rotate_comp_hyp(t, r, rq_dir as int);
                        assert(s2.up_ok(RakeNode::Leaf(CompNode::Node(t))));
                    }
                }
                let ghost before = *tree;
                rotate_comp(tree, t, r, 1 - rq_dir);
                proof {
                    TopTree::lemma_edges_kept_trans(&start, &before, tree);
                }
                proof {
                    if start.shaped() {
                        TopTree::lemma_sub_rot_comp(&before, tree, t, r, (1 - rq_dir) as int, t);
                        TopTree::lemma_rot_keeps_rake(&before, tree, t, r, (1 - rq_dir) as int, t);
                    }
                }
                proof {
                    if start.shaped() {
                        TopTree::lemma_above_comp_rot_top(&s2, tree, t, r);
                    }
                }
            }
        } else {
            if let Some(qp) = tree.comp(q).par {
                qp.push(tree);
            }
            Compress::push(tree, q);
            Compress::push(tree, t);
            let qt_dir = parent_dir_comp(tree, CompNode::Node(t)).unwrap().0;
            proof {
                if start.shaped() {
                    s0.lemma_rotate_comp_hyp(t, q, qt_dir as int);
                }
            }
            let ghost before = *tree;
            rotate_comp(tree, t, q, 1 - qt_dir);
            proof {
                TopTree::lemma_edges_kept_trans(&start, &before, tree);
            }
            proof {
                if start.shaped() {
                    TopTree::lemma_sub_rot_comp(&before, tree, t, q, (1 - qt_dir) as int, t);
                    TopTree::lemma_rot_keeps_rake(&before, tree, t, q, (1 - qt_dir) as int, t);
                }
            }
            proof {
                if start.shaped() {
                    TopTree::lemma_above_comp_rot_top(&s0, tree, t, q);
                }
            }
        }
        proof {
            rotated = true;
        }
    }
}

/// Splays rake node `t` to the top of its rake tree. At most as many steps
/// are taken as there are rake nodes.
pub fn splay_rake<T: Cluster>(tree: &mut TopTree<T>, t: usize)
    requires
        old(tree).wf(),
        t < old(tree).rks().len(),
    ensures
        final(tree).wf(),
        final(tree).same_sizes(old(tree)),
        final(tree).edges_kept(old(tree)),
        old(tree).shaped() ==> final(tree).shaped() && final(tree).parent_dir_rake_spec(RakeNode::Node(t)) is None,
        old(tree).shaped() ==> forall|k: RakeNode, a: RakeNode|
            old(tree).rake_ok(k) && old(tree).rake_ok(a) && #[trigger] old(tree).in_sub(a, RakeNode::Node(t))
                && #[trigger] old(tree).in_sub(k, a) ==> final(tree).in_sub(k, a) && final(tree).in_sub(a, RakeNode::Node(t)),
        old(tree).shaped() && old(tree).parent_dir_rake_spec(RakeNode::Node(t)) is Some ==> final(tree).rake_fixed(t as int),
{
    Rake::push(tree, t);
    let ghost start = *tree;
    let mut fuel = tree.rakes.len();
    proof {
        tree.lemma_above_rake_bound(t);
    }
    // whether `t` has been rotated up yet
    let ghost mut rotated = false;
    while fuel > 0
        invariant_except_break
            start.shaped() ==> tree.above_rake(t).len() < fuel,
        invariant
            !rotated ==> *tree == start,
            start.shaped() && rotated ==> tree.rake_fixed(t as int),
            tree.wf(),
            t < tree.rakes.len(),
            tree.same_sizes(&start),
            tree.edges_kept(&start),
            start.shaped() ==> tree.shaped(),
            start.shaped() ==> forall|k: RakeNode, a: RakeNode|
                start.rake_ok(k) && start.rake_ok(a) && #[trigger] start.in_sub(a, RakeNode::Node(t))
                    && #[trigger] start.in_sub(k, a) ==> tree.in_sub(k, a) && tree.in_sub(a, RakeNode::Node(t)),
        ensures
            start.shaped() && start.parent_dir_rake_spec(RakeNode::Node(t)) is Some ==> tree.rake_fixed(t as int),
            tree.wf(),
            tree.same_sizes(&start),
            tree.edges_kept(&start),
            start.shaped() ==> tree.shaped() && tree.parent_dir_rake_spec(RakeNode::Node(t)) is None,
            start.shaped() ==> forall|k: RakeNode, a: RakeNode|
                start.rake_ok(k) && start.rake_ok(a) && #[trigger] start.in_sub(a, RakeNode::Node(t))
                    && #[trigger] start.in_sub(k, a) ==> tree.in_sub(k, a) && tree.in_sub(a, RakeNode::Node(t)),
        decreases fuel,
    {
        fuel = fuel - 1;
        let q = match parent_dir_rake(tree, RakeNode::Node(t)) {
            Some((_, q)) => q,
            None => break,
        };
        let ghost s0 = *tree;
        proof {
            if start.shaped() {
                assert(s0.up_ok(RakeNode::Node(t)));
                s0.lemma_above_rake_bound(t);
            }
        }
        if let Some((_, r)) = parent_dir_rake(tree, RakeNode::Node(q)) {
            if let Some(rp) = tree.rake_at(r).par {
                rp.push(tree);
            }
            Rake::push(tree, r);
            Rake::push(tree, q);
            Rake::push(tree, t);
            let qt_dir = parent_dir_rake(tree, RakeNode::Node(t)).unwrap().0;
            let rq_dir = parent_dir_rake(tree, RakeNode::Node(q)).unwrap().0;
            proof {
                if start.shaped() {
                    assert(s0.up_ok(RakeNode::Node(q)));
                }
            }
            if rq_dir == qt_dir {
                proof {
                    if start.shaped() {
                        s0.lemma_rotate_rake_hyp(q, r, rq_dir as int);
                    }
                }
                let ghost before = *tree;
                rotate_rake(tree, q, r, 1 - rq_dir);
                proof {
                    TopTree::lemma_edges_kept_trans(&start, &before, tree);
                }
                proof {
                    if start.shaped() {
                        TopTree::lemma_sub_rot_rake(&before, tree, q, r, (1 - rq_dir) as int, t);
                    }
                }
                let ghost s2 = *tree;
                proof {
                    if start.shaped() {
                        TopTree::lemma_above_rake_rot_other(&s0, &s2, t, q, r);
                        s2.lemma_rotate_rake_hyp(t, q, qt_dir as int);
                        assert(s2.up_ok(RakeNode::Node(t)));
                    }
                }
                let ghost before = *tree;
                rotate_rake(tree, t, q, 1 - qt_dir);
                proof {
                    TopTree::lemma_edges_kept_trans(&start, &before, tree);
                }
                proof {
                    if start.shaped() {
                        TopTree::lemma_sub_rot_rake(&before, tree, t, q, (1 - qt_dir) as int, t);
                    }
                }
                proof {
                    if start.shaped() {
                        TopTree::lemma_above_rake_rot_top(&s2, tree, t, q);
                    }
                }
            } else {
                proof {
                    if start.shaped() {
                        s0.lemma_rotate_rake_hyp(t, q, qt_dir as int);
                    }
                }
                let ghost before = *tree;
                rotate_rake(tree, t, q, 1 - qt_dir);
                proof {
                    TopTree::lemma_edges_kept_trans(&start, &before, tree);
                }
                proof {
                    if start.shaped() {
                        TopTree::lemma_sub_rot_rake(&before, tree, t, q, (1 - qt_dir) as int, t);
                    }
                }
                let ghost s2 = *tree;
                proof {
                    if start.shaped() {
                        TopTree::lemma_above_rake_rot_top(&s0, &s2, t, q);
                        s2.lemma_rotate_rake_hyp(t, r, rq_dir as int);
                        assert(s2.up_ok(RakeNode::Node(t)));
                    }
                }
                let ghost before = *tree;
                rotate_rake(tree, t, r, 1 - rq_dir);
                proof {
                    TopTree::lemma_edges_kept_trans(&start, &before, tree);
                }
                proof {
                    if start.shaped() {
                        TopTree::lemma_sub_rot_rake(&before, tree, t, r, (1 - rq_dir) as int, t);
                    }
                }
                proof {
                    if start.shaped() {
                        TopTree::lemma_above_rake_rot_top(&s2, tree, t, r);
                    }
                }
            }
        } else {
            if let Some(qp) = tree.rake_at(q).par {
                qp.push(tree);
            }
            Rake::push(tree, q);
            Rake::push(tree, t);
            let qt_dir = parent_dir_rake(tree, RakeNode::Node(t)).unwrap().0;
            proof {
                if start.shaped() {
                    s0.lemma_rotate_rake_hyp(t, q, qt_dir as int);
                }
            }
            let ghost before = *tree;
            rotate_rake(tree, t, q, 1 - qt_dir);
            proof {
                TopTree::lemma_edges_kept_trans(&start, &before, tree);
            }
            proof {
                if start.shaped() {
                    TopTree::lemma_sub_rot_rake(&before, tree, t, q, (1 - qt_dir) as int, t);
                }
            }
            proof {
                if start.shaped() {
                    TopTree::lemma_above_rake_rot_top(&s0, tree, t, q);
                }
            }
        }
        proof {
            rotated = true;
        }
    }
}

} // verus!
