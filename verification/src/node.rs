use vstd::prelude::*;
use crate::parent_dir::{parent_dir_comp};
use crate::link::link;
use crate::expose::expose_raw;

verus! {

/// The summary that a top tree keeps for each cluster.
///
/// A cluster is a connected part of the tree with two boundary vertices.
/// `compress` joins two path clusters that share a middle vertex, `rake`
/// hangs a cluster onto the far boundary of another one, and `reverse`
/// swaps the roles of the two boundary vertices. The three vertex values
/// passed to `compress` and `rake` are, in order, the left boundary of the
/// first cluster, the far boundary of the second one and the shared vertex.
///
/// Each operation comes with a spec function that says what it computes;
/// the tree's contracts speak of those.
pub trait Cluster: Copy + Sized {
    type V: Default + Copy;

    spec fn spec_identity() -> Self;

    spec fn spec_compress(left: Self, right: Self, a: Self::V, b: Self::V, c: Self::V) -> Self;

    spec fn spec_rake(left: Self, right: Self, a: Self::V, b: Self::V, c: Self::V) -> Self;

    spec fn spec_reverse(self) -> Self;

    fn identity() -> (r: Self)
        ensures
            r == Self::spec_identity(),
    ;

    fn compress(left: Self, right: Self, a: Self::V, b: Self::V, c: Self::V) -> (r: Self)
        ensures
            r == Self::spec_compress(left, right, a, b, c),
    ;

    fn rake(left: Self, right: Self, a: Self::V, b: Self::V, c: Self::V) -> (r: Self)
        ensures
            r == Self::spec_rake(left, right, a, b, c),
    ;

    fn reverse(&mut self)
        ensures
            *final(self) == old(self).spec_reverse(),
    ;

    /// Reversing twice gives the cluster back.
    proof fn lemma_reverse_involutive(a: Self)
        ensures
            a.spec_reverse().spec_reverse() == a,
    ;
}

pub type Link<N> = Option<N>;

/// A vertex of the forest, named by its slot in the tree's vertex arena.
#[derive(Clone, Copy, PartialEq, Eq, Structural, Debug)]
pub struct Vertex {
    pub vertex: usize,
}

/// A path cluster: an inner compress node or a single edge.
#[derive(Clone, Copy, PartialEq, Eq, Structural, Debug)]
pub enum CompNode {
    Node(usize),
    Leaf(usize),
}

/// A member of a rake tree: an inner rake node or a hanging path cluster.
#[derive(Clone, Copy, PartialEq, Eq, Structural, Debug)]
pub enum RakeNode {
    Node(usize),
    Leaf(CompNode),
}

/// The node above a cluster.
#[derive(Clone, Copy, PartialEq, Eq, Structural, Debug)]
pub enum ParentNode {
    Compress(usize),
    Rake(usize),
}

/// What the tree stores for a vertex: its value and a cluster that has it
/// as a boundary vertex.
#[derive(Clone, Copy)]
pub struct VertexRaw<T: Cluster> {
    pub val: T::V,
    pub handle: Option<CompNode>,
}

/// A base cluster: one edge of the forest.
#[derive(Clone, Copy)]
pub struct Edge<T: Cluster> {
    pub v: [Vertex; 2],
    pub par: Link<ParentNode>,
    pub me: usize,
    pub val: T,
}

/// A compress node: two path clusters joined at a middle vertex, with an
/// optional rake tree hanging from that vertex.
#[derive(Clone, Copy)]
pub struct Compress<T: Cluster> {
    pub ch: [CompNode; 2],
    pub v: [Vertex; 2],
    pub rake: Link<RakeNode>,
    pub par: Link<ParentNode>,
    pub me: usize,
    pub rev: bool,
    pub guard: bool,
    pub fold: T,
}

/// A rake node: two clusters that hang from the same vertex.
#[derive(Clone, Copy)]
pub struct Rake<T: Cluster> {
    pub ch: [RakeNode; 2],
    pub v: [Vertex; 2],
    pub par: Link<ParentNode>,
    pub fold: T,
}

/// The arenas that hold every vertex and every cluster of a forest.
pub struct TopTree<T: Cluster> {
    pub(crate) vertices: Vec<VertexRaw<T>>,
    pub(crate) edges: Vec<Edge<T>>,
    pub(crate) comps: Vec<Compress<T>>,
    pub(crate) rakes: Vec<Rake<T>>,
    /// A rank for every node, larger above than below (see `shaped`).
    pub(crate) rank: Ghost<spec_fn(RakeNode) -> int>,
}

impl<T: Cluster> TopTree<T> {
    pub open(crate) spec fn vs(&self) -> Seq<VertexRaw<T>> {
        self.vertices@
    }

    pub open(crate) spec fn es(&self) -> Seq<Edge<T>> {
        self.edges@
    }

    pub open(crate) spec fn cs(&self) -> Seq<Compress<T>> {
        self.comps@
    }

    pub open(crate) spec fn rks(&self) -> Seq<Rake<T>> {
        self.rakes@
    }

    pub open(crate) spec fn ranks(&self) -> spec_fn(RakeNode) -> int {
        self.rank@
    }

    pub open(crate) spec fn vx_ok(&self, v: Vertex) -> bool {
        v.vertex < self.vertices.len()
    }

    pub open(crate) spec fn comp_ok(&self, c: CompNode) -> bool {
        match c {
            CompNode::Node(i) => i < self.comps.len(),
            CompNode::Leaf(i) => i < self.edges.len(),
        }
    }

    pub open(crate) spec fn rake_ok(&self, r: RakeNode) -> bool {
        match r {
            RakeNode::Node(i) => i < self.rakes.len(),
            RakeNode::Leaf(c) => self.comp_ok(c),
        }
    }

    pub open(crate) spec fn parent_ok(&self, p: Link<ParentNode>) -> bool {
        match p {
            Some(ParentNode::Compress(i)) => i < self.comps.len(),
            Some(ParentNode::Rake(i)) => i < self.rakes.len(),
            None => true,
        }
    }

    pub open(crate) spec fn handle_ok(&self, h: Option<CompNode>) -> bool {
        match h {
            Some(c) => self.comp_ok(c),
            None => true,
        }
    }

    pub open(crate) spec fn rake_link_ok(&self, r: Link<RakeNode>) -> bool {
        match r {
            Some(x) => self.rake_ok(x),
            None => true,
        }
    }

    pub open(crate) spec fn edge_wf(&self, e: Edge<T>, i: int) -> bool {
        &&& self.vx_ok(e.v[0])
        &&& self.vx_ok(e.v[1])
        &&& self.parent_ok(e.par)
        &&& e.me == i
    }

    pub open(crate) spec fn comp_wf(&self, n: Compress<T>, i: int) -> bool {
        &&& self.comp_ok(n.ch[0])
        &&& self.comp_ok(n.ch[1])
        &&& self.vx_ok(n.v[0])
        &&& self.vx_ok(n.v[1])
        &&& self.rake_link_ok(n.rake)
        &&& self.parent_ok(n.par)
        &&& n.me == i
        &&& !n.rev
    }

    pub open(crate) spec fn rake_wf(&self, n: Rake<T>) -> bool {
        &&& self.rake_ok(n.ch[0])
        &&& self.rake_ok(n.ch[1])
        &&& self.vx_ok(n.v[0])
        &&& self.vx_ok(n.v[1])
        &&& self.parent_ok(n.par)
    }

    /// A vertex `i` whose handle is an edge is one of that edge's ends.
    pub open(crate) spec fn handle_at_end(&self, i: int, h: Option<CompNode>) -> bool {
        h matches Some(CompNode::Leaf(e)) ==> self.edges@[e as int].v[0].vertex == i
            || self.edges@[e as int].v[1].vertex == i
    }

    /// Every link stored in the arenas names a slot that exists, every node
    /// knows its own slot, no reversal is left pending, and a vertex whose
    /// handle is an edge is one of its ends.
    pub open(crate) spec fn wf(&self) -> bool {
        &&& forall|i: int|
            0 <= i < self.vertices.len() ==> self.handle_ok(#[trigger] self.vertices@[i].handle)
        &&& forall|i: int|
            0 <= i < self.vertices.len() ==> self.handle_at_end(i, #[trigger] self.vertices@[i].handle)
        &&& forall|i: int| 0 <= i < self.edges.len() ==> self.edge_wf(#[trigger] self.edges@[i], i)
        &&& forall|i: int| 0 <= i < self.comps.len() ==> self.comp_wf(#[trigger] self.comps@[i], i)
        &&& forall|i: int| 0 <= i < self.rakes.len() ==> self.rake_wf(#[trigger] self.rakes@[i])
    }

    /// The arenas have the same sizes as in `old`, and every vertex keeps its
    /// value.
    pub open(crate) spec fn same_sizes(&self, old: &Self) -> bool {
        &&& self.vertices.len() == old.vertices.len()
        &&& self.edges.len() == old.edges.len()
        &&& self.comps.len() == old.comps.len()
        &&& self.rakes.len() == old.rakes.len()
        &&& forall|i: int|
            0 <= i < self.vertices.len() ==> {
                &&& (#[trigger] self.vertices@[i]).val == old.vertices@[i].val
                &&& (old.vertices@[i].handle is Some ==> self.vertices@[i].handle is Some)
            }
    }

    /// As `same_sizes`, except that vertex `v` may have another value.
    pub open(crate) spec fn same_sizes_but(&self, old: &Self, v: Vertex) -> bool {
        &&& self.vertices.len() == old.vertices.len()
        &&& self.edges.len() == old.edges.len()
        &&& self.comps.len() == old.comps.len()
        &&& self.rakes.len() == old.rakes.len()
        &&& forall|i: int|
            0 <= i < self.vertices.len() ==> {
                &&& (i != v.vertex ==> (#[trigger] self.vertices@[i]).val == old.vertices@[i].val)
                &&& (old.vertices@[i].handle is Some ==> self.vertices@[i].handle is Some)
            }
    }

    /// Every link agrees with `o`: the children, rake tree, parent and guard
    /// of every compress node, the children and parent of every rake node,
    /// and the ends, value and parent of every edge. Boundaries and folds
    /// of inner nodes, and handles, may differ.
    pub open(crate) spec fn links_eq(&self, o: &Self) -> bool {
        &&& self.links_same(o)
        &&& self.rank@ == o.rank@
    }

    /// As `links_eq`, whatever the ranks.
    pub open(crate) spec fn links_same(&self, o: &Self) -> bool {
        &&& self.same_sizes(o)
        &&& forall|k: int| 0 <= k < self.comps.len() ==> {
            let n = #[trigger] self.comps@[k];
            let on = o.comps@[k];
            &&& n.ch == on.ch
            &&& n.rake == on.rake
            &&& n.par == on.par
            &&& n.guard == on.guard
        }
        &&& forall|k: int| 0 <= k < self.rakes.len() ==> {
            let n = #[trigger] self.rakes@[k];
            let on = o.rakes@[k];
            &&& n.ch == on.ch
            &&& n.par == on.par
        }
        &&& forall|k: int| 0 <= k < self.edges.len() ==> {
            let e = #[trigger] self.edges@[k];
            let oe = o.edges@[k];
            &&& e.v == oe.v
            &&& e.val == oe.val
            &&& e.par == oe.par
        }
    }

    /// `p` as a member of a rake tree: the key by which the ranks name it.
    pub open(crate) spec fn pkey(p: ParentNode) -> RakeNode {
        match p {
            ParentNode::Compress(i) => RakeNode::Leaf(CompNode::Node(i)),
            ParentNode::Rake(i) => RakeNode::Node(i),
        }
    }

    /// Node `p` holds `k` as one of its children (for a compress node: one
    /// of its two sides or its rake tree).
    pub open(crate) spec fn is_child(&self, p: ParentNode, k: RakeNode) -> bool {
        match p {
            ParentNode::Compress(i) => {
                let n = self.comps@[i as int];
                k == RakeNode::Leaf(n.ch[0]) || k == RakeNode::Leaf(n.ch[1]) || n.rake == Some(k)
            },
            ParentNode::Rake(i) => {
                let n = self.rakes@[i as int];
                k == n.ch[0] || k == n.ch[1]
            },
        }
    }

    /// The parent of `k`, if any, holds `k` as a child and has a larger rank.
    pub open(crate) spec fn up_ok(&self, k: RakeNode) -> bool {
        match self.rake_parent_of(k) {
            Some(p) => self.is_child(p, k) && (self.rank@)(Self::pkey(p)) > (self.rank@)(k),
            None => true,
        }
    }

    /// The children of compress node `i` are distinct and name it as parent.
    pub open(crate) spec fn down_ok_comp(&self, i: int) -> bool {
        let n = self.comps@[i];
        let me = Some(ParentNode::Compress(i as usize));
        &&& self.parent_of(n.ch[0]) == me
        &&& self.parent_of(n.ch[1]) == me
        &&& n.ch[0] != n.ch[1]
        &&& match n.rake {
            Some(r) => self.rake_parent_of(r) == me && r != RakeNode::Leaf(n.ch[0]) && r != RakeNode::Leaf(n.ch[1]),
            None => true,
        }
    }

    /// The children of rake node `i` are distinct and name it as parent.
    pub open(crate) spec fn down_ok_rake(&self, i: int) -> bool {
        let n = self.rakes@[i];
        let me = Some(ParentNode::Rake(i as usize));
        &&& self.rake_parent_of(n.ch[0]) == me
        &&& self.rake_parent_of(n.ch[1]) == me
        &&& n.ch[0] != n.ch[1]
    }

    /// The links form a forest: every child names its parent and every parent
    /// holds its children, children of one node are distinct, and ranks grow
    /// strictly from child to parent, so no walk upward comes back.
    pub open(crate) spec fn shaped(&self) -> bool {
        &&& self.wf()
        &&& forall|i: usize| i < self.edges.len() ==> #[trigger] self.up_ok(RakeNode::Leaf(CompNode::Leaf(i)))
        &&& forall|i: usize| i < self.comps.len() ==> #[trigger] self.up_ok(RakeNode::Leaf(CompNode::Node(i)))
        &&& forall|i: int| 0 <= i < self.comps.len() ==> #[trigger] self.down_ok_comp(i)
        &&& forall|i: usize| i < self.rakes.len() ==> #[trigger] self.up_ok(RakeNode::Node(i))
        &&& forall|i: int| 0 <= i < self.rakes.len() ==> #[trigger] self.down_ok_rake(i)
    }

    /// Keeping every link and every rank keeps a forest.
    pub(crate) proof fn lemma_shaped_links_eq(o: &Self, f: &Self)
        requires
            o.shaped(),
            f.wf(),
            f.links_eq(o),
        ensures
            f.shaped(),
    {
        assert forall|k: int| 0 <= k < f.comps.len() implies {
            let n = #[trigger] f.comps@[k];
            let on = o.comps@[k];
            &&& (n.ch == on.ch || n.ch == [on.ch[1], on.ch[0]])
            &&& n.rake == on.rake
            &&& n.par == on.par
        } by {
            let n = f.comps@[k];
        }
        assert forall|k: int| 0 <= k < f.edges.len() implies (#[trigger] f.edges@[k]).par == o.edges@[k].par by {
            let e = f.edges@[k];
        }
        Self::lemma_shaped_links_perm(o, f);
    }

    /// The shape reads only the links and the ranks: a change to the vertex
    /// arena alone keeps a forest.
    pub(crate) proof fn lemma_shaped_vertices(o: &Self, f: &Self)
        requires
            o.shaped(),
            f.wf(),
            f.edges@ == o.edges@,
            f.comps@ == o.comps@,
            f.rakes@ == o.rakes@,
            f.rank@ == o.rank@,
        ensures
            f.shaped(),
    {
        assert forall|i: usize| i < f.comps.len() implies #[trigger] f.up_ok(RakeNode::Leaf(CompNode::Node(i))) by {
            assert(o.up_ok(RakeNode::Leaf(CompNode::Node(i))));
        }
        assert forall|i: usize| i < f.edges.len() implies #[trigger] f.up_ok(RakeNode::Leaf(CompNode::Leaf(i))) by {
            assert(o.up_ok(RakeNode::Leaf(CompNode::Leaf(i))));
        }
        assert forall|i: usize| i < f.rakes.len() implies #[trigger] f.up_ok(RakeNode::Node(i)) by {
            assert(o.up_ok(RakeNode::Node(i)));
        }
        assert forall|i: int| 0 <= i < f.comps.len() implies #[trigger] f.down_ok_comp(i) by {
            assert(o.down_ok_comp(i));
        }
        assert forall|i: int| 0 <= i < f.rakes.len() implies #[trigger] f.down_ok_rake(i) by {
            assert(o.down_ok_rake(i));
        }
    }

    /// A new edge with no parent, added to a forest, is a tree of its own.
    pub(crate) proof fn lemma_shaped_push_edge(o: &Self, f: &Self)
        requires
            o.shaped(),
            f.wf(),
            f.edges.len() == o.edges.len() + 1,
            forall|i: int| 0 <= i < o.edges.len() ==> #[trigger] f.edges@[i] == o.edges@[i],
            f.edges@[o.edges.len() as int].par is None,
            f.comps@ == o.comps@,
            f.rakes@ == o.rakes@,
            f.rank@ == o.rank@,
        ensures
            f.shaped(),
    {
        assert forall|i: usize| i < f.comps.len() implies #[trigger] f.up_ok(RakeNode::Leaf(CompNode::Node(i))) by {
            assert(o.up_ok(RakeNode::Leaf(CompNode::Node(i))));
        }
        assert forall|i: usize| i < f.edges.len() implies #[trigger] f.up_ok(RakeNode::Leaf(CompNode::Leaf(i))) by {
            if i < o.edges.len() {
                assert(o.up_ok(RakeNode::Leaf(CompNode::Leaf(i))));
            }
        }
        assert forall|i: usize| i < f.rakes.len() implies #[trigger] f.up_ok(RakeNode::Node(i)) by {
            assert(o.up_ok(RakeNode::Node(i)));
        }
        assert forall|i: int| 0 <= i < f.comps.len() implies #[trigger] f.down_ok_comp(i) by {
            assert(o.down_ok_comp(i));
            assert(o.comp_wf(o.comps@[i], i));
            let n = o.comps@[i];
            match n.ch[0] { CompNode::Node(j) => {}, CompNode::Leaf(j) => { assert(f.edges@[j as int] == o.edges@[j as int]); } }
            match n.ch[1] { CompNode::Node(j) => {}, CompNode::Leaf(j) => { assert(f.edges@[j as int] == o.edges@[j as int]); } }
            match n.rake {
                Some(RakeNode::Leaf(CompNode::Leaf(j))) => { assert(f.edges@[j as int] == o.edges@[j as int]); },
                _ => {},
            }
        }
        assert forall|i: int| 0 <= i < f.rakes.len() implies #[trigger] f.down_ok_rake(i) by {
            assert(o.down_ok_rake(i));
            assert(o.rake_wf(o.rakes@[i]));
            let n = o.rakes@[i];
            match n.ch[0] { RakeNode::Leaf(CompNode::Leaf(j)) => { assert(f.edges@[j as int] == o.edges@[j as int]); }, _ => {} }
            match n.ch[1] { RakeNode::Leaf(CompNode::Leaf(j)) => { assert(f.edges@[j as int] == o.edges@[j as int]); }, _ => {} }
        }
    }

    /// `e` is the edge `oe` as it was, or turned round: its ends swapped and
    /// its value reversed.
    pub open(crate) spec fn same_edge(e: Edge<T>, oe: Edge<T>) -> bool {
        ||| e.v == oe.v && e.val == oe.val
        ||| e.v == [oe.v[1], oe.v[0]] && e.val == oe.val.spec_reverse()
    }

    /// Keeping an edge up to turning it round composes.
    pub(crate) proof fn lemma_same_edge_trans(e: Edge<T>, m: Edge<T>, x: Edge<T>)
        requires
            Self::same_edge(e, m),
            Self::same_edge(m, x),
        ensures
            Self::same_edge(e, x),
    {
        T::lemma_reverse_involutive(x.val);
        if m.v == [x.v[1], x.v[0]] && e.v == [m.v[1], m.v[0]] {
            assert(e.v =~= x.v);
        }
    }

    /// Every edge of `old` is still there with the same two ends and the same
    /// value, perhaps turned round.
    pub open(crate) spec fn edges_kept(&self, old: &Self) -> bool {
        &&& self.edges.len() >= old.edges.len()
        &&& forall|k: int| 0 <= k < old.edges.len() ==> Self::same_edge(#[trigger] self.edges@[k], old.edges@[k])
    }

    /// Edge `e` runs between `v` and `u`, in one direction or the other.
    pub open(crate) spec fn joins(&self, e: int, v: Vertex, u: Vertex) -> bool {
        let ends = self.edges@[e].v;
        (ends[0] == v && ends[1] == u) || (ends[0] == u && ends[1] == v)
    }

    /// Keeping the edges composes.
    pub(crate) proof fn lemma_edges_kept_trans(a: &Self, b: &Self, c: &Self)
        requires
            b.edges_kept(a),
            c.edges_kept(b),
        ensures
            c.edges_kept(a),
    {
        assert forall|k: int| 0 <= k < a.edges.len() implies Self::same_edge(#[trigger] c.edges@[k], a.edges@[k]) by {
            let e = c.edges@[k];
            let m = b.edges@[k];
            let oe = a.edges@[k];
            T::lemma_reverse_involutive(oe.val);
            if m.v == [oe.v[1], oe.v[0]] && e.v == [m.v[1], m.v[0]] {
                assert(e.v =~= oe.v);
            }
        }
    }

    /// Keeping every link up to the order of sides, and every rank, keeps a
    /// forest.
    pub(crate) proof fn lemma_shaped_links_perm(o: &Self, f: &Self)
        requires
            o.shaped(),
            f.wf(),
            f.links_perm(o),
        ensures
            f.shaped(),
    {
        assert forall|i: usize| i < f.comps.len() implies #[trigger] f.up_ok(RakeNode::Leaf(CompNode::Node(i))) by {
            assert(o.up_ok(RakeNode::Leaf(CompNode::Node(i))));
            let n = f.comps@[i as int];
            if let Some(ParentNode::Compress(p)) = n.par {
                let m = f.comps@[p as int];
            }
            if let Some(ParentNode::Rake(p)) = n.par {
                let m = f.rakes@[p as int];
            }
        }
        assert forall|i: usize| i < f.edges.len() implies #[trigger] f.up_ok(RakeNode::Leaf(CompNode::Leaf(i))) by {
            assert(o.up_ok(RakeNode::Leaf(CompNode::Leaf(i))));
            let n = f.edges@[i as int];
            if let Some(ParentNode::Compress(p)) = n.par {
                let m = f.comps@[p as int];
            }
            if let Some(ParentNode::Rake(p)) = n.par {
                let m = f.rakes@[p as int];
            }
        }
        assert forall|i: usize| i < f.rakes.len() implies #[trigger] f.up_ok(RakeNode::Node(i)) by {
            assert(o.up_ok(RakeNode::Node(i)));
            let n = f.rakes@[i as int];
            if let Some(ParentNode::Compress(p)) = n.par {
                let m = f.comps@[p as int];
            }
            if let Some(ParentNode::Rake(p)) = n.par {
                let m = f.rakes@[p as int];
            }
        }
        assert forall|i: int| 0 <= i < f.comps.len() implies #[trigger] f.down_ok_comp(i) by {
            assert(o.down_ok_comp(i));
            let n = f.comps@[i];
            match n.ch[0] { CompNode::Node(j) => { let m = f.comps@[j as int]; }, CompNode::Leaf(j) => { let m = f.edges@[j as int]; } }
            match n.ch[1] { CompNode::Node(j) => { let m = f.comps@[j as int]; }, CompNode::Leaf(j) => { let m = f.edges@[j as int]; } }
            match n.rake {
                Some(RakeNode::Node(j)) => { let m = f.rakes@[j as int]; },
                Some(RakeNode::Leaf(CompNode::Node(j))) => { let m = f.comps@[j as int]; },
                Some(RakeNode::Leaf(CompNode::Leaf(j))) => { let m = f.edges@[j as int]; },
                None => {},
            }
        }
        assert forall|i: int| 0 <= i < f.rakes.len() implies #[trigger] f.down_ok_rake(i) by {
            assert(o.down_ok_rake(i));
            let n = f.rakes@[i];
            match n.ch[0] {
                RakeNode::Node(j) => { let m = f.rakes@[j as int]; },
                RakeNode::Leaf(CompNode::Node(j)) => { let m = f.comps@[j as int]; },
                RakeNode::Leaf(CompNode::Leaf(j)) => { let m = f.edges@[j as int]; },
            }
            match n.ch[1] {
                RakeNode::Node(j) => { let m = f.rakes@[j as int]; },
                RakeNode::Leaf(CompNode::Node(j)) => { let m = f.comps@[j as int]; },
                RakeNode::Leaf(CompNode::Leaf(j)) => { let m = f.edges@[j as int]; },
            }
        }
    }

    /// `links_perm` composes.
    pub(crate) proof fn lemma_links_perm_trans(a: &Self, b: &Self, c: &Self)
        requires
            b.links_perm(a),
            c.links_perm(b),
        ensures
            c.links_perm(a),
    {
        assert forall|k: int| 0 <= k < c.comps.len() implies {
            let n = #[trigger] c.comps@[k];
            let on = a.comps@[k];
            &&& (n.ch == on.ch || n.ch == [on.ch[1], on.ch[0]])
            &&& n.rake == on.rake
            &&& n.par == on.par
        } by {
            let n = c.comps@[k];
            let m = b.comps@[k];
            let on = a.comps@[k];
            if m.ch == [on.ch[1], on.ch[0]] && n.ch == [m.ch[1], m.ch[0]] {
                assert(n.ch =~= on.ch);
            }
        }
        assert forall|k: int| 0 <= k < c.vertices.len() implies {
            &&& (#[trigger] c.vertices@[k]).val == a.vertices@[k].val
            &&& (a.vertices@[k].handle is Some ==> c.vertices@[k].handle is Some)
        } by {
            assert(b.vertices@[k].val == a.vertices@[k].val);
        }
        assert forall|k: int| 0 <= k < c.rakes.len() implies (#[trigger] c.rakes@[k]).ch == a.rakes@[k].ch
            && c.rakes@[k].par == a.rakes@[k].par by {
            let m = b.rakes@[k];
        }
        assert forall|k: int| 0 <= k < c.edges.len() implies (#[trigger] c.edges@[k]).par == a.edges@[k].par by {
            let m = b.edges@[k];
        }
    }

    /// In a forest every path cluster's parent link is sound.
    pub(crate) proof fn lemma_up_ok_comp(&self, c: CompNode)
        requires
            self.shaped(),
            self.comp_ok(c),
        ensures
            self.up_ok(RakeNode::Leaf(c)),
    {
        match c {
            CompNode::Node(i) => assert(self.up_ok(RakeNode::Leaf(CompNode::Node(i)))),
            CompNode::Leaf(i) => assert(self.up_ok(RakeNode::Leaf(CompNode::Leaf(i)))),
        }
    }

    /// In a forest every rake tree member's parent link is sound.
    pub(crate) proof fn lemma_up_ok_rake(&self, r: RakeNode)
        requires
            self.shaped(),
            self.rake_ok(r),
        ensures
            self.up_ok(r),
    {
        match r {
            RakeNode::Node(i) => assert(self.up_ok(RakeNode::Node(i))),
            RakeNode::Leaf(c) => self.lemma_up_ok_comp(c),
        }
    }

    /// Every link agrees with `o` up to the order of a compress node's two
    /// sides, and every rank is kept; guards may differ, and edges may have
    /// their ends swapped and other values.
    pub open(crate) spec fn links_perm(&self, o: &Self) -> bool {
        &&& self.same_sizes(o)
        &&& self.rank@ == o.rank@
        &&& forall|k: int| 0 <= k < self.comps.len() ==> {
            let n = #[trigger] self.comps@[k];
            let on = o.comps@[k];
            &&& (n.ch == on.ch || n.ch == [on.ch[1], on.ch[0]])
            &&& n.rake == on.rake
            &&& n.par == on.par
        }
        &&& forall|k: int| 0 <= k < self.rakes.len() ==> {
            let n = #[trigger] self.rakes@[k];
            let on = o.rakes@[k];
            &&& n.ch == on.ch
            &&& n.par == on.par
        }
        &&& forall|k: int| 0 <= k < self.edges.len() ==> (#[trigger] self.edges@[k]).par == o.edges@[k].par
    }

    /// Only the vertices' handles may differ from `old`.
    pub open(crate) spec fn same_but_handles(&self, old: &Self) -> bool {
        &&& self.same_sizes(old)
        &&& self.edges@ == old.edges@
        &&& self.comps@ == old.comps@
        &&& self.rakes@ == old.rakes@
    }

    /// The arenas hold at least what `old` held, and old vertices keep their
    /// values.
    pub open(crate) spec fn grows_from(&self, old: &Self) -> bool {
        &&& self.vertices.len() >= old.vertices.len()
        &&& self.edges.len() >= old.edges.len()
        &&& self.comps.len() >= old.comps.len()
        &&& self.rakes.len() >= old.rakes.len()
        &&& forall|i: int|
            0 <= i < old.vertices.len() ==> {
                &&& (#[trigger] self.vertices@[i]).val == old.vertices@[i].val
                &&& (old.vertices@[i].handle is Some ==> self.vertices@[i].handle is Some)
            }
    }

    /// Every vertex has a handle.
    pub open(crate) spec fn all_handled(&self) -> bool {
        forall|i: int| 0 <= i < self.vertices.len() ==> (#[trigger] self.vertices@[i]).handle is Some
    }

    /// The tree is well formed and every vertex has a handle: the state in
    /// which the public operations may be called.
    pub open(crate) spec fn inv(&self) -> bool {
        self.wf() && self.all_handled()
    }

    pub open(crate) spec fn value_of(&self, v: Vertex) -> T::V {
        self.vertices@[v.vertex as int].val
    }

    pub open(crate) spec fn handle_of(&self, v: Vertex) -> Option<CompNode> {
        self.vertices@[v.vertex as int].handle
    }

    pub open(crate) spec fn endpoint_of(&self, c: CompNode, d: int) -> Vertex {
        match c {
            CompNode::Node(i) => self.comps@[i as int].v[d],
            CompNode::Leaf(i) => self.edges@[i as int].v[d],
        }
    }

    pub open(crate) spec fn fold_of(&self, c: CompNode) -> T {
        match c {
            CompNode::Node(i) => self.comps@[i as int].fold,
            CompNode::Leaf(i) => self.edges@[i as int].val,
        }
    }

    pub open(crate) spec fn parent_of(&self, c: CompNode) -> Link<ParentNode> {
        match c {
            CompNode::Node(i) => self.comps@[i as int].par,
            CompNode::Leaf(i) => self.edges@[i as int].par,
        }
    }

    pub open(crate) spec fn rake_endpoint_of(&self, r: RakeNode, d: int) -> Vertex {
        match r {
            RakeNode::Node(i) => self.rakes@[i as int].v[d],
            RakeNode::Leaf(c) => self.endpoint_of(c, d),
        }
    }

    pub open(crate) spec fn rake_fold_of(&self, r: RakeNode) -> T {
        match r {
            RakeNode::Node(i) => self.rakes@[i as int].fold,
            RakeNode::Leaf(c) => self.fold_of(c),
        }
    }

    pub open(crate) spec fn rake_parent_of(&self, r: RakeNode) -> Link<ParentNode> {
        match r {
            RakeNode::Node(i) => self.rakes@[i as int].par,
            RakeNode::Leaf(c) => self.parent_of(c),
        }
    }

    pub open(crate) spec fn node_parent_of(&self, p: ParentNode) -> Link<ParentNode> {
        match p {
            ParentNode::Compress(i) => self.comps@[i as int].par,
            ParentNode::Rake(i) => self.rakes@[i as int].par,
        }
    }

    /// What a compress node's fold is, given its children as they stand.
    pub open(crate) spec fn comp_fold_spec(&self, n: Compress<T>) -> T {
        let a = self.endpoint_of(n.ch[0], 0);
        let m = self.endpoint_of(n.ch[0], 1);
        let b = self.endpoint_of(n.ch[1], 1);
        let left = match n.rake {
            Some(r) => T::spec_rake(
                self.fold_of(n.ch[0]),
                self.rake_fold_of(r),
                self.value_of(a),
                self.value_of(self.rake_endpoint_of(r, 0)),
                self.value_of(m),
            ),
            None => self.fold_of(n.ch[0]),
        };
        T::spec_compress(left, self.fold_of(n.ch[1]), self.value_of(a), self.value_of(b), self.value_of(m))
    }

    /// What a rake node's fold is, given its children as they stand.
    pub open(crate) spec fn rake_fold_spec(&self, n: Rake<T>) -> T {
        T::spec_rake(
            self.rake_fold_of(n.ch[0]),
            self.rake_fold_of(n.ch[1]),
            self.value_of(self.rake_endpoint_of(n.ch[0], 0)),
            self.value_of(self.rake_endpoint_of(n.ch[1], 0)),
            self.value_of(self.rake_endpoint_of(n.ch[0], 1)),
        )
    }

    /// A compress node whose boundary and fold agree with its children.
    pub open(crate) spec fn comp_fixed(&self, i: int) -> bool {
        let n = self.comps@[i];
        &&& n.v[0] == self.endpoint_of(n.ch[0], 0)
        &&& n.v[1] == self.endpoint_of(n.ch[1], 1)
        &&& n.fold == self.comp_fold_spec(n)
    }

    /// A rake node whose boundary and fold agree with its children.
    pub open(crate) spec fn rake_fixed(&self, i: int) -> bool {
        let n = self.rakes@[i];
        &&& n.v[0] == self.rake_endpoint_of(n.ch[0], 0)
        &&& n.v[1] == self.rake_endpoint_of(n.ch[0], 1)
        &&& n.fold == self.rake_fold_spec(n)
    }
}

impl<T: Cluster> TopTree<T> {
    /// Fixing compress node `j` leaves every vertex value as it was.
    pub(crate) proof fn lemma_fix_keeps_values(o: &Self, f: &Self, j: usize)
        requires
            o.wf(),
            j < o.comps.len(),
            f.fixed_at(o, CompNode::Node(j)),
        ensures
            f.vertices.len() == o.vertices.len(),
            forall|w: int| 0 <= w < o.vertices.len() ==> (#[trigger] f.vertices@[w]).val == o.vertices@[w].val,
    {
        let n = o.comps@[j as int];
        let h = Some(CompNode::Node(j));
        let vs0 = o.vertices@;
        let vs1 = with_handle(vs0, o.endpoint_of(n.ch[0], 1), h);
        let vs2 = with_handle(vs1, o.endpoint_of(n.ch[0], 0), h);
        let vs3 = with_handle(vs2, o.endpoint_of(n.ch[1], 1), h);
        assert forall|w: int| 0 <= w < o.vertices.len() implies (#[trigger] f.vertices@[w]).val == o.vertices@[w].val by {
            assert(vs1[w].val == vs0[w].val);
            assert(vs2[w].val == vs0[w].val);
            assert(vs3[w].val == vs0[w].val);
        }
    }

    /// Fixing compress node `i` makes it fixed, where it is none of its own
    /// children.
    pub(crate) proof fn lemma_fix_makes_fixed(o: &Self, f: &Self, i: usize)
        requires
            o.wf(),
            i < o.comps.len(),
            f.fixed_at(o, CompNode::Node(i)),
            o.comps@[i as int].ch[0] != CompNode::Node(i),
            o.comps@[i as int].ch[1] != CompNode::Node(i),
            o.comps@[i as int].rake != Some(RakeNode::Leaf(CompNode::Node(i))),
        ensures
            f.comp_fixed(i as int),
    {
        Self::lemma_fix_keeps_values(o, f, i);
        let n = o.comps@[i as int];
        assert(o.comp_wf(n, i as int));
        assert(f.comps@[i as int].ch == n.ch);
    }

    /// Fixing compress node `j` keeps compress node `i` fixed, where `j` is
    /// neither `i` nor one of its children.
    pub(crate) proof fn lemma_fix_keeps_fixed(o: &Self, f: &Self, j: usize, i: usize)
        requires
            o.wf(),
            i < o.comps.len(),
            j < o.comps.len(),
            o.comp_fixed(i as int),
            f.fixed_at(o, CompNode::Node(j)),
            i != j,
            o.comps@[i as int].ch[0] != CompNode::Node(j),
            o.comps@[i as int].ch[1] != CompNode::Node(j),
            o.comps@[i as int].rake != Some(RakeNode::Leaf(CompNode::Node(j))),
        ensures
            f.comp_fixed(i as int),
    {
        Self::lemma_fix_keeps_values(o, f, j);
        let n = o.comps@[i as int];
        assert(o.comp_wf(n, i as int));
    }

    /// Fixing rake node `j` keeps compress node `i` fixed, where `j` is not
    /// the top of its rake tree.
    pub(crate) proof fn lemma_rake_fix_keeps_fixed(o: &Self, f: &Self, j: usize, i: usize)
        requires
            o.wf(),
            i < o.comps.len(),
            j < o.rakes.len(),
            o.comp_fixed(i as int),
            f.rake_fixed_at(o, RakeNode::Node(j)),
            o.comps@[i as int].rake != Some(RakeNode::Node(j)),
        ensures
            f.comp_fixed(i as int),
    {
        let n = o.comps@[i as int];
        assert(o.comp_wf(n, i as int));
    }
}

impl<T: Cluster> TopTree<T> {
    /// Fixing rake node `i` makes it fixed, where it is neither of its own
    /// children.
    pub(crate) proof fn lemma_rake_fix_makes_fixed(o: &Self, f: &Self, i: usize)
        requires
            o.wf(),
            i < o.rakes.len(),
            f.rake_fixed_at(o, RakeNode::Node(i)),
            o.rakes@[i as int].ch[0] != RakeNode::Node(i),
            o.rakes@[i as int].ch[1] != RakeNode::Node(i),
        ensures
            f.rake_fixed(i as int),
    {
        assert(o.rake_wf(o.rakes@[i as int]));
    }

    /// Fixing rake node `j` keeps rake node `i` fixed, where `j` is neither
    /// `i` nor one of its children.
    pub(crate) proof fn lemma_rake_fix_keeps_rake_fixed(o: &Self, f: &Self, j: usize, i: usize)
        requires
            o.wf(),
            i < o.rakes.len(),
            j < o.rakes.len(),
            o.rake_fixed(i as int),
            f.rake_fixed_at(o, RakeNode::Node(j)),
            i != j,
            o.rakes@[i as int].ch[0] != RakeNode::Node(j),
            o.rakes@[i as int].ch[1] != RakeNode::Node(j),
        ensures
            f.rake_fixed(i as int),
    {
        assert(o.rake_wf(o.rakes@[i as int]));
    }

    /// Fixing compress node `j` keeps rake node `i` fixed, where `j` is not
    /// one of its children.
    pub(crate) proof fn lemma_fix_keeps_rake_fixed(o: &Self, f: &Self, j: usize, i: usize)
        requires
            o.wf(),
            i < o.rakes.len(),
            j < o.comps.len(),
            o.rake_fixed(i as int),
            f.fixed_at(o, CompNode::Node(j)),
            o.rakes@[i as int].ch[0] != RakeNode::Leaf(CompNode::Node(j)),
            o.rakes@[i as int].ch[1] != RakeNode::Leaf(CompNode::Node(j)),
        ensures
            f.rake_fixed(i as int),
    {
        Self::lemma_fix_keeps_values(o, f, j);
        assert(o.rake_wf(o.rakes@[i as int]));
    }
}

/// The pair `a` with its entry on side `d` replaced by `x`.
pub open(crate) spec fn set_side<A>(a: [A; 2], d: int, x: A) -> [A; 2] {
    if d == 0 {
        [x, a[1]]
    } else {
        [a[0], x]
    }
}

/// The vertex arena after the handle of `v` is set to `h`.
pub open(crate) spec fn with_handle<T: Cluster>(
    vs: Seq<VertexRaw<T>>,
    v: Vertex,
    h: Option<CompNode>,
) -> Seq<VertexRaw<T>> {
    vs.update(v.vertex as int, VertexRaw { val: vs[v.vertex as int].val, handle: h })
}

} // verus!

verus! {

impl Vertex {
    /// A vertex that names no slot.
    pub fn dangling() -> (r: Vertex)
        ensures
            r.vertex == usize::MAX,
    {
        Vertex { vertex: usize::MAX }
    }

    /// The slot of the vertex in the tree's vertex arena.
    pub fn index(&self) -> (r: usize)
        ensures
            r == self.vertex,
    {
        self.vertex
    }

    pub fn handle<T: Cluster>(&self, tree: &TopTree<T>) -> (r: Option<CompNode>)
        requires
            tree.vx_ok(*self),
        ensures
            r == tree.handle_of(*self),
    {
        tree.vertex_raw(*self).handle
    }

    pub fn value<T: Cluster>(&self, tree: &TopTree<T>) -> (r: T::V)
        requires
            tree.vx_ok(*self),
        ensures
            r == tree.value_of(*self),
    {
        tree.vertex_raw(*self).val
    }
}

impl CompNode {
    pub fn endpoints<T: Cluster>(&self, tree: &TopTree<T>, dir: usize) -> (r: Vertex)
        requires
            tree.comp_ok(*self),
            dir < 2,
        ensures
            r == tree.endpoint_of(*self, dir as int),
    {
        match *self {
            CompNode::Node(i) => tree.comp(i).v[dir],
            CompNode::Leaf(i) => tree.edge(i).v[dir],
        }
    }

    pub fn fold<T: Cluster>(&self, tree: &TopTree<T>) -> (r: T)
        requires
            tree.comp_ok(*self),
        ensures
            r == tree.fold_of(*self),
    {
        match *self {
            CompNode::Node(i) => tree.comp(i).fold,
            CompNode::Leaf(i) => tree.edge(i).val,
        }
    }

    pub fn parent<T: Cluster>(&self, tree: &TopTree<T>) -> (r: Link<ParentNode>)
        requires
            tree.wf(),
            tree.comp_ok(*self),
        ensures
            r == tree.parent_of(*self),
            tree.parent_ok(r),
    {
        match *self {
            CompNode::Node(i) => tree.comp(i).par,
            CompNode::Leaf(i) => tree.edge(i).par,
        }
    }

    /// Sets the node above this cluster.
    pub(crate) fn set_parent<T: Cluster>(&self, tree: &mut TopTree<T>, p: Link<ParentNode>)
        requires
            old(tree).wf(),
            old(tree).comp_ok(*self),
            old(tree).parent_ok(p),
        ensures
            final(tree).wf(),
            final(tree).same_sizes(old(tree)),
            final(tree).rank == old(tree).rank,
            final(tree).vertices@ == old(tree).vertices@,
            final(tree).rakes@ == old(tree).rakes@,
            match *self {
                CompNode::Node(i) => final(tree).comps@ == old(tree).comps@.update(
                    i as int,
                    Compress { par: p, ..old(tree).comps@[i as int] },
                ) && final(tree).edges@ == old(tree).edges@,
                CompNode::Leaf(i) => final(tree).edges@ == old(tree).edges@.update(
                    i as int,
                    Edge { par: p, ..old(tree).edges@[i as int] },
                ) && final(tree).comps@ == old(tree).comps@,
            },
    {
        match *self {
            CompNode::Node(i) => {
                let n = tree.comp(i);
                tree.set_comp(i, Compress { par: p, ..n });
            },
            CompNode::Leaf(i) => {
                let e = tree.edge(i);
                tree.set_edge(i, Edge { par: p, ..e });
            },
        }
    }
}

impl RakeNode {
    pub fn endpoints<T: Cluster>(&self, tree: &TopTree<T>, dir: usize) -> (r: Vertex)
        requires
            tree.rake_ok(*self),
            dir < 2,
        ensures
            r == tree.rake_endpoint_of(*self, dir as int),
    {
        match *self {
            RakeNode::Node(i) => tree.rake_at(i).v[dir],
            RakeNode::Leaf(c) => c.endpoints(tree, dir),
        }
    }

    pub fn fold<T: Cluster>(&self, tree: &TopTree<T>) -> (r: T)
        requires
            tree.rake_ok(*self),
        ensures
            r == tree.rake_fold_of(*self),
    {
        match *self {
            RakeNode::Node(i) => tree.rake_at(i).fold,
            RakeNode::Leaf(c) => c.fold(tree),
        }
    }

    pub fn parent<T: Cluster>(&self, tree: &TopTree<T>) -> (r: Link<ParentNode>)
        requires
            tree.wf(),
            tree.rake_ok(*self),
        ensures
            r == tree.rake_parent_of(*self),
            tree.parent_ok(r),
    {
        match *self {
            RakeNode::Node(i) => tree.rake_at(i).par,
            RakeNode::Leaf(c) => c.parent(tree),
        }
    }

    /// Sets the node above this member of a rake tree.
    pub(crate) fn set_parent<T: Cluster>(&self, tree: &mut TopTree<T>, p: Link<ParentNode>)
        requires
            old(tree).wf(),
            old(tree).rake_ok(*self),
            old(tree).parent_ok(p),
        ensures
            final(tree).wf(),
            final(tree).same_sizes(old(tree)),
            final(tree).rank == old(tree).rank,
            final(tree).vertices@ == old(tree).vertices@,
            match *self {
                RakeNode::Node(i) => final(tree).rakes@ == old(tree).rakes@.update(
                    i as int,
                    Rake { par: p, ..old(tree).rakes@[i as int] },
                ) && final(tree).edges@ == old(tree).edges@ && final(tree).comps@
                    == old(tree).comps@,
                RakeNode::Leaf(CompNode::Node(i)) => final(tree).comps@ == old(tree).comps@.update(
                    i as int,
                    Compress { par: p, ..old(tree).comps@[i as int] },
                ) && final(tree).edges@ == old(tree).edges@ && final(tree).rakes@
                    == old(tree).rakes@,
                RakeNode::Leaf(CompNode::Leaf(i)) => final(tree).edges@ == old(tree).edges@.update(
                    i as int,
                    Edge { par: p, ..old(tree).edges@[i as int] },
                ) && final(tree).comps@ == old(tree).comps@ && final(tree).rakes@
                    == old(tree).rakes@,
            },
    {
        match *self {
            RakeNode::Node(i) => {
                let n = tree.rake_at(i);
                tree.set_rake_node(i, Rake { par: p, ..n });
            },
            RakeNode::Leaf(c) => c.set_parent(tree, p),
        }
    }
}

impl ParentNode {
    pub fn parent<T: Cluster>(&self, tree: &TopTree<T>) -> (r: Link<ParentNode>)
        requires
            tree.wf(),
            tree.parent_ok(Some(*self)),
        ensures
            r == tree.node_parent_of(*self),
            tree.parent_ok(r),
    {
        match *self {
            ParentNode::Compress(i) => tree.comp(i).par,
            ParentNode::Rake(i) => tree.rake_at(i).par,
        }
    }
}

impl<T: Cluster> Compress<T> {
    pub fn rake(&self) -> (r: Link<RakeNode>)
        ensures
            r == self.rake,
    {
        self.rake
    }

    pub fn rake_mut(&mut self) -> (r: &mut Link<RakeNode>)
        ensures
            *r == old(self).rake,
            *final(self) == (Compress { rake: *final(r), ..*old(self) }),
    {
        &mut self.rake
    }

    pub fn parent(&self) -> (r: Link<ParentNode>)
        ensures
            r == self.par,
    {
        self.par
    }
}

impl<T: Cluster> Rake<T> {
    pub fn parent(&self) -> (r: Link<ParentNode>)
        ensures
            r == self.par,
    {
        self.par
    }
}

impl<T: Cluster> Edge<T> {
    pub fn parent(&self) -> (r: Link<ParentNode>)
        ensures
            r == self.par,
    {
        self.par
    }
}

impl<T: Cluster> VertexRaw<T> {
    pub fn new(val: T::V) -> (r: Self)
        ensures
            r.val == val,
            r.handle.is_none(),
    {
        VertexRaw { val: val, handle: None }
    }

    pub fn dummy() -> (r: Self)
        ensures
            r.handle.is_none(),
            call_ensures(T::V::default, (), r.val),
    {
        VertexRaw { val: T::V::default(), handle: None }
    }

    pub fn handle(&self) -> (r: Option<CompNode>)
        ensures
            r == self.handle,
    {
        self.handle
    }

    pub fn handle_mut(&mut self) -> (r: &mut Option<CompNode>)
        ensures
            *r == old(self).handle,
            *final(self) == (VertexRaw { handle: *final(r), ..*old(self) }),
    {
        &mut self.handle
    }

    pub fn value(&self) -> (r: T::V)
        ensures
            r == self.val,
    {
        self.val
    }
}

} // verus!

verus! {

impl<T: Cluster> Edge<T> {
    /// The vertex arena after edge `me` claims the handles of its boundary
    /// vertices: both when it has no parent, the left one when it hangs in a
    /// rake tree or has no side in its compress parent.
    pub open(crate) spec fn fixed_handles(tree: &TopTree<T>, me: int) -> Seq<VertexRaw<T>> {
        let e = tree.edges@[me];
        let h = Some(CompNode::Leaf(me as usize));
        match e.par {
            Some(ParentNode::Compress(_)) => if tree.parent_dir_comp_spec(CompNode::Leaf(me as usize)) is None {
                with_handle(tree.vertices@, e.v[0], h)
            } else {
                tree.vertices@
            },
            Some(ParentNode::Rake(_)) => with_handle(tree.vertices@, e.v[0], h),
            None => with_handle(with_handle(tree.vertices@, e.v[0], h), e.v[1], h),
        }
    }

    /// Points the handles of this edge's boundary vertices at it, where the
    /// edge is the topmost cluster with that vertex as a boundary.
    pub fn fix(tree: &mut TopTree<T>, me: usize)
        requires
            old(tree).wf(),
            me < old(tree).es().len(),
        ensures
            final(tree).wf(),
            final(tree).same_but_handles(old(tree)),
            final(tree).links_eq(old(tree)),
            final(tree).vs() == Edge::fixed_handles(old(tree), me as int),
            old(tree).shaped() ==> final(tree).shaped(),
    {
        let e = tree.edge(me);
        match e.par {
            Some(ParentNode::Compress(_)) => {
                if parent_dir_comp(tree, CompNode::Leaf(e.me)).is_none() {
                    tree.set_handle(e.v[0], Some(CompNode::Leaf(e.me)));
                }
            },
            Some(ParentNode::Rake(_)) => {
                tree.set_handle(e.v[0], Some(CompNode::Leaf(e.me)));
            },
            None => {
                tree.set_handle(e.v[0], Some(CompNode::Leaf(e.me)));
                tree.set_handle(e.v[1], Some(CompNode::Leaf(e.me)));
            },
        }
        proof {
            if old(tree).shaped() {
                TopTree::lemma_shaped_links_eq(old(tree), tree);
            }
        }
    }

    /// An edge has nothing to pass down.
    pub fn push(tree: &mut TopTree<T>, me: usize)
        requires
            old(tree).wf(),
            me < old(tree).es().len(),
        ensures
            *final(tree) == *old(tree),
    {
    }

    /// Swaps the two ends of the edge and reverses its value.
    pub fn reverse(tree: &mut TopTree<T>, me: usize)
        requires
            old(tree).wf(),
            me < old(tree).es().len(),
        ensures
            final(tree).wf(),
            final(tree).same_sizes(old(tree)),
            final(tree).vs() == old(tree).vs(),
            final(tree).cs() == old(tree).cs(),
            final(tree).rks() == old(tree).rks(),
            final(tree).es() == old(tree).es().update(me as int, Edge::reversed(old(tree).es()[me as int])),
            final(tree).edges_kept(old(tree)),
            final(tree).links_perm(old(tree)),
            final(tree).kept_outside(old(tree), RakeNode::Leaf(CompNode::Leaf(me))),
            old(tree).shaped() ==> final(tree).shaped(),
    {
        let e = tree.edge(me);
        let mut val = e.val;
        val.reverse();
        tree.set_edge(me, Edge { v: [e.v[1], e.v[0]], val: val, ..e });
        proof {
            if old(tree).shaped() {
                TopTree::lemma_shaped_links_perm(old(tree), tree);
            }
        }
    }
}

impl<T: Cluster> Edge<T> {
    /// The edge `e` with its ends swapped and its value reversed.
    pub open(crate) spec fn reversed(e: Edge<T>) -> Edge<T> {
        Edge { v: [e.v[1], e.v[0]], val: e.val.spec_reverse(), ..e }
    }
}

impl<T: Cluster> Compress<T> {
    /// The compress node `n` with its sides and its boundary swapped and its
    /// fold reversed.
    pub open(crate) spec fn reversed(n: Compress<T>) -> Compress<T> {
        Compress { ch: [n.ch[1], n.ch[0]], v: [n.v[1], n.v[0]], fold: n.fold.spec_reverse(), ..n }
    }
}

impl<T: Cluster> TopTree<T> {
    /// `self` holds path cluster `c` of `old` reversed in its own slot; for
    /// an edge, nothing else of the edges and compress nodes changed.
    pub open(crate) spec fn reversed_at(&self, old: &Self, c: CompNode) -> bool {
        match c {
            CompNode::Node(i) => self.comps@[i as int] == Compress::reversed(old.comps@[i as int]),
            CompNode::Leaf(i) => self.edges@ == old.edges@.update(i as int, Edge::reversed(old.edges@[i as int]))
                && self.comps@ == old.comps@,
        }
    }

    /// Every compress node and edge of `old` that does not lie below `c` is
    /// as it was.
    pub open(crate) spec fn kept_outside(&self, old: &Self, c: RakeNode) -> bool {
        &&& forall|i: int|
            0 <= i < old.comps.len() && !old.in_sub(RakeNode::Leaf(CompNode::Node(i as usize)), c)
                ==> #[trigger] self.comps@[i] == old.comps@[i]
        &&& forall|i: int|
            0 <= i < old.edges.len() && !old.in_sub(RakeNode::Leaf(CompNode::Leaf(i as usize)), c)
                ==> #[trigger] self.edges@[i] == old.edges@[i]
    }

    /// The slot of path cluster `c` holds what `old` held there, reversed.
    pub open(crate) spec fn slot_reversed(&self, old: &Self, c: CompNode) -> bool {
        match c {
            CompNode::Node(i) => self.comps@[i as int] == Compress::reversed(old.comps@[i as int]),
            CompNode::Leaf(i) => self.edges@[i as int] == Edge::reversed(old.edges@[i as int]),
        }
    }

    /// Reversing both sides of compress node `me`, right side first, reverses
    /// each of them in its slot and leaves all that is not below `me` alone.
    proof fn lemma_reverse_sides_frame(s0: &Self, s1: &Self, s2: &Self, me: usize)
        requires
            s0.shaped(),
            me < s0.comps.len(),
            s1.links_perm(s0),
            s1.reversed_at(s0, s0.comps@[me as int].ch[1]),
            s1.kept_outside(s0, RakeNode::Leaf(s0.comps@[me as int].ch[1])),
            s2.links_perm(s1),
            s2.reversed_at(s1, s0.comps@[me as int].ch[0]),
            s2.kept_outside(s1, RakeNode::Leaf(s0.comps@[me as int].ch[0])),
        ensures
            s2.kept_outside(s0, RakeNode::Leaf(CompNode::Node(me))),
            s2.slot_reversed(s0, s0.comps@[me as int].ch[0]),
            s2.slot_reversed(s0, s0.comps@[me as int].ch[1]),
            s0.comps@[me as int].ch[0] != CompNode::Node(me),
            s0.comps@[me as int].ch[1] != CompNode::Node(me),
    {
        let m = s0.comps@[me as int];
        let c0 = m.ch[0];
        let c1 = m.ch[1];
        let k0 = RakeNode::Leaf(c0);
        let k1 = RakeNode::Leaf(c1);
        let top = RakeNode::Leaf(CompNode::Node(me));
        assert(s0.down_ok_comp(me as int));
        assert(s0.comp_wf(m, me as int));
        s0.lemma_up_ok_comp(c0);
        s0.lemma_up_ok_comp(c1);
        assert(s0.in_sub(top, top));
        s0.lemma_in_sub_child(k0, top);
        s0.lemma_in_sub_child(k1, top);
        assert(s0.in_sub(k0, k0));
        assert(s0.in_sub(k1, k1));
        s0.lemma_in_sub_siblings(k1, k1, k0);
        s0.lemma_in_sub_siblings(k0, k0, k1);
        Self::lemma_in_sub_links_perm(s0, s1, k1, k0);
        assert forall|i: int|
            0 <= i < s0.comps.len() && !s0.in_sub(RakeNode::Leaf(CompNode::Node(i as usize)), top)
                implies #[trigger] s2.comps@[i] == s0.comps@[i] by {
            let k = RakeNode::Leaf(CompNode::Node(i as usize));
            if s0.in_sub(k, k1) {
                s0.lemma_in_sub_trans(k, k1, top);
            }
            if s0.in_sub(k, k0) {
                s0.lemma_in_sub_trans(k, k0, top);
            }
            Self::lemma_in_sub_links_perm(s0, s1, k, k0);
            assert(s1.comps@[i] == s0.comps@[i]);
        }
        assert forall|i: int|
            0 <= i < s0.edges.len() && !s0.in_sub(RakeNode::Leaf(CompNode::Leaf(i as usize)), top)
                implies #[trigger] s2.edges@[i] == s0.edges@[i] by {
            let k = RakeNode::Leaf(CompNode::Leaf(i as usize));
            if s0.in_sub(k, k1) {
                s0.lemma_in_sub_trans(k, k1, top);
            }
            if s0.in_sub(k, k0) {
                s0.lemma_in_sub_trans(k, k0, top);
            }
            Self::lemma_in_sub_links_perm(s0, s1, k, k0);
            assert(s1.edges@[i] == s0.edges@[i]);
        }
        match c1 {
            CompNode::Node(i) => {
                assert(s2.comps@[i as int] == s1.comps@[i as int]);
            },
            CompNode::Leaf(i) => {
                assert(s2.edges@[i as int] == s1.edges@[i as int]);
            },
        }
        match c0 {
            CompNode::Node(i) => {
                assert(s1.comps@[i as int] == s0.comps@[i as int]);
            },
            CompNode::Leaf(i) => {
                assert(s1.edges@[i as int] == s0.edges@[i as int]);
            },
        }
    }

    /// `self` is `old` after path cluster `c` was fixed: a compress node gets
    /// its boundary and fold recomputed, an edge hands out handles; nothing
    /// else of the node arenas changes.
    pub open(crate) spec fn fixed_at(&self, old: &Self, c: CompNode) -> bool {
        &&& self.edges@ == old.edges@
        &&& self.rakes@ == old.rakes@
        &&& match c {
            CompNode::Node(i) => self.comps@ == old.comps@.update(
                i as int,
                Compress::fixed_in(old.comps@[i as int], old),
            ) && self.vertices@ == Compress::fixed_handles(old, i as int),
            CompNode::Leaf(i) => self.comps@ == old.comps@ && self.vertices@ == Edge::fixed_handles(old, i as int),
        }
    }

    /// As `fixed_at`, for a member of a rake tree.
    pub open(crate) spec fn rake_fixed_at(&self, old: &Self, r: RakeNode) -> bool {
        match r {
            RakeNode::Node(i) => {
                &&& self.rakes@ == old.rakes@.update(i as int, Rake::fixed_in(old.rakes@[i as int], old))
                &&& self.comps@ == old.comps@
                &&& self.edges@ == old.edges@
                &&& self.vertices@ == old.vertices@
            },
            RakeNode::Leaf(c) => self.fixed_at(old, c),
        }
    }

    /// `self` is `old` with the parent of node `k` set to `p`, and nothing
    /// else changed.
    pub open(crate) spec fn parent_set(&self, old: &Self, k: RakeNode, p: Link<ParentNode>) -> bool {
        &&& self.vertices@ == old.vertices@
        &&& self.rank == old.rank
        &&& match k {
            RakeNode::Node(i) => {
                &&& self.rakes@ == old.rakes@.update(i as int, Rake { par: p, ..old.rakes@[i as int] })
                &&& self.comps@ == old.comps@
                &&& self.edges@ == old.edges@
            },
            RakeNode::Leaf(CompNode::Node(i)) => {
                &&& self.comps@ == old.comps@.update(i as int, Compress { par: p, ..old.comps@[i as int] })
                &&& self.rakes@ == old.rakes@
                &&& self.edges@ == old.edges@
            },
            RakeNode::Leaf(CompNode::Leaf(i)) => {
                &&& self.edges@ == old.edges@.update(i as int, Edge { par: p, ..old.edges@[i as int] })
                &&& self.rakes@ == old.rakes@
                &&& self.comps@ == old.comps@
            },
        }
    }
}

impl<T: Cluster> Compress<T> {
    /// The vertex arena after compress node `me` claims the handles of the
    /// vertices it covers: its middle vertex always, its left boundary when
    /// it hangs in a rake tree or has no side in its compress parent, and
    /// both boundaries when it has no parent.
    pub open(crate) spec fn fixed_handles(tree: &TopTree<T>, me: int) -> Seq<VertexRaw<T>> {
        let n = tree.comps@[me];
        let h = Some(CompNode::Node(me as usize));
        let a = tree.endpoint_of(n.ch[0], 0);
        let b = tree.endpoint_of(n.ch[1], 1);
        let mid = with_handle(tree.vertices@, tree.endpoint_of(n.ch[0], 1), h);
        match n.par {
            Some(ParentNode::Compress(_)) => if tree.parent_dir_comp_spec(CompNode::Node(me as usize)) is None {
                with_handle(mid, a, h)
            } else {
                mid
            },
            Some(ParentNode::Rake(_)) => with_handle(mid, a, h),
            None => with_handle(with_handle(mid, a, h), b, h),
        }
    }

    /// The compress node `n` with its boundary and fold recomputed from its
    /// children in `tree`.
    pub open(crate) spec fn fixed_in(n: Compress<T>, tree: &TopTree<T>) -> Compress<T> {
        Compress {
            v: [tree.endpoint_of(n.ch[0], 0), tree.endpoint_of(n.ch[1], 1)],
            fold: tree.comp_fold_spec(n),
            ..n
        }
    }

    /// Recomputes the boundary and the fold of compress node `me` from its
    /// children, and points the handles of the vertices it covers at it.
    pub fn fix(tree: &mut TopTree<T>, me: usize)
        requires
            old(tree).wf(),
            me < old(tree).cs().len(),
        ensures
            final(tree).wf(),
            final(tree).same_sizes(old(tree)),
            final(tree).es() == old(tree).es(),
            final(tree).rks() == old(tree).rks(),
            final(tree).links_eq(old(tree)),
            final(tree).cs() == old(tree).cs().update(
                me as int,
                Compress::fixed_in(old(tree).cs()[me as int], old(tree)),
            ),
            final(tree).vs() == Compress::fixed_handles(old(tree), me as int),
            old(tree).shaped() ==> final(tree).shaped(),
    {
        Compress::push(tree, me);
        let n = tree.comp(me);
        let a = n.ch[0].endpoints(tree, 0);
        let m = n.ch[0].endpoints(tree, 1);
        let b = n.ch[1].endpoints(tree, 1);
        let av = a.value(tree);
        let bv = b.value(tree);
        let mv = m.value(tree);
        let f0 = n.ch[0].fold(tree);
        let left = match n.rake {
            Some(r) => {
                let rv = r.endpoints(tree, 0).value(tree);
                T::rake(f0, r.fold(tree), av, rv, mv)
            },
            None => f0,
        };
        let fold = T::compress(left, n.ch[1].fold(tree), av, bv, mv);
        tree.set_comp(me, Compress { v: [a, b], fold: fold, ..n });
        let ghost fixed = *tree;
        proof {
            assert(tree.parent_dir_comp_spec(CompNode::Node(me)) == old(tree).parent_dir_comp_spec(CompNode::Node(me)));
        }
        tree.set_handle(m, Some(CompNode::Node(n.me)));
        match n.par {
            Some(ParentNode::Compress(_)) => {
                if parent_dir_comp(tree, CompNode::Node(n.me)).is_none() {
                    tree.set_handle(a, Some(CompNode::Node(n.me)));
                }
            },
            Some(ParentNode::Rake(_)) => {
                tree.set_handle(a, Some(CompNode::Node(n.me)));
            },
            None => {
                tree.set_handle(a, Some(CompNode::Node(n.me)));
                tree.set_handle(b, Some(CompNode::Node(n.me)));
            },
        }
        assert(tree.same_sizes(&fixed));
        proof {
            if old(tree).shaped() {
                TopTree::lemma_shaped_links_eq(old(tree), tree);
            }
        }
    }

    /// Passes a pending reversal down to the children. Reversals are never
    /// left pending (see `reverse`), so this leaves the tree as it is.
    pub fn push(tree: &mut TopTree<T>, me: usize)
        requires
            old(tree).wf(),
            me < old(tree).cs().len(),
        ensures
            *final(tree) == *old(tree),
    {
        let n = tree.comp(me);
        if n.rev {
            // a reversal is never stored as pending
            tree.set_comp(me, Compress { rev: false, ..n });
        }
    }

    /// Reverses the path cluster of compress node `me`: its two sides swap,
    /// its fold is reversed, and the reversal is carried down at once into
    /// both sides, at most `fuel` levels deep.
    pub fn reverse(tree: &mut TopTree<T>, me: usize, fuel: usize)
        requires
            old(tree).wf(),
            me < old(tree).cs().len(),
        ensures
            final(tree).wf(),
            final(tree).same_sizes(old(tree)),
            final(tree).vs() == old(tree).vs(),
            final(tree).rks() == old(tree).rks(),
            final(tree).links_perm(old(tree)),
            final(tree).cs()[me as int] == Compress::reversed(old(tree).cs()[me as int]),
            final(tree).edges_kept(old(tree)),
            old(tree).shaped() ==> final(tree).shaped(),
            old(tree).shaped() ==> final(tree).kept_outside(old(tree), RakeNode::Leaf(CompNode::Node(me))),
            old(tree).shaped() && fuel > 0 ==> final(tree).slot_reversed(old(tree), old(tree).cs()[me as int].ch[0])
                && final(tree).slot_reversed(old(tree), old(tree).cs()[me as int].ch[1]),
        decreases fuel, 2nat,
    {
        let n = tree.comp(me);
        let ghost s0 = *tree;
        if fuel > 0 {
            n.ch[1].reverse(tree, fuel - 1);
            let ghost s1 = *tree;
            n.ch[0].reverse(tree, fuel - 1);
            proof {
                TopTree::lemma_links_perm_trans(&s0, &s1, tree);
                TopTree::lemma_edges_kept_trans(&s0, &s1, tree);
                if s0.shaped() {
                    TopTree::lemma_reverse_sides_frame(&s0, &s1, tree, me);
                }
            }
        }
        let ghost s2 = *tree;
        let mut fold = n.fold;
        fold.reverse();
        tree.set_comp(me, Compress { ch: [n.ch[1], n.ch[0]], v: [n.v[1], n.v[0]], fold: fold, ..n });
        proof {
            assert forall|k: int| 0 <= k < tree.comps.len() implies {
                let m = #[trigger] tree.comps@[k];
                let om = old(tree).comps@[k];
                &&& (m.ch == om.ch || m.ch == [om.ch[1], om.ch[0]])
                &&& m.rake == om.rake
                &&& m.par == om.par
            } by {
                if k != me as int {
                    assert(tree.comps@[k] == s2.comps@[k]);
                    let m2 = s2.comps@[k];
                }
            }
            assert forall|k: int| 0 <= k < tree.rakes.len() implies {
                let m = #[trigger] tree.rakes@[k];
                let om = old(tree).rakes@[k];
                &&& m.ch == om.ch
                &&& m.par == om.par
            } by {
                let m2 = s2.rakes@[k];
            }
            assert forall|k: int| 0 <= k < tree.edges.len() implies (#[trigger] tree.edges@[k]).par == old(tree).edges@[k].par by {
                let m2 = s2.edges@[k];
            }
            assert(tree.links_perm(old(tree)));
            assert(tree.edges_kept(&s2));
            TopTree::lemma_edges_kept_trans(old(tree), &s2, tree);
            if old(tree).shaped() {
                TopTree::lemma_shaped_links_perm(old(tree), tree);
            }
        }
    }
}

impl<T: Cluster> Rake<T> {
    /// The rake node `n` with its boundary and fold recomputed from its
    /// children in `tree`.
    pub open(crate) spec fn fixed_in(n: Rake<T>, tree: &TopTree<T>) -> Rake<T> {
        Rake {
            v: [tree.rake_endpoint_of(n.ch[0], 0), tree.rake_endpoint_of(n.ch[0], 1)],
            fold: tree.rake_fold_spec(n),
            ..n
        }
    }

    /// Recomputes the boundary and the fold of rake node `me` from its children.
    pub fn fix(tree: &mut TopTree<T>, me: usize)
        requires
            old(tree).wf(),
            me < old(tree).rks().len(),
        ensures
            final(tree).wf(),
            final(tree).same_sizes(old(tree)),
            final(tree).vs() == old(tree).vs(),
            final(tree).es() == old(tree).es(),
            final(tree).cs() == old(tree).cs(),
            final(tree).links_eq(old(tree)),
            final(tree).rks() == old(tree).rks().update(
                me as int,
                Rake::fixed_in(old(tree).rks()[me as int], old(tree)),
            ),
            old(tree).shaped() ==> final(tree).shaped(),
    {
        Rake::push(tree, me);
        let n = tree.rake_at(me);
        let a = n.ch[0].endpoints(tree, 0);
        let m = n.ch[0].endpoints(tree, 1);
        let b = n.ch[1].endpoints(tree, 0);
        let fold = T::rake(n.ch[0].fold(tree), n.ch[1].fold(tree), a.value(tree), b.value(tree), m.value(tree));
        tree.set_rake_node(me, Rake { v: [a, m], fold: fold, ..n });
        proof {
            if old(tree).shaped() {
                TopTree::lemma_shaped_links_eq(old(tree), tree);
            }
        }
    }

    /// A rake node holds no pending work.
    pub fn push(tree: &mut TopTree<T>, me: usize)
        requires
            old(tree).wf(),
            me < old(tree).rks().len(),
        ensures
            *final(tree) == *old(tree),
    {
    }

    /// Reversing a rake tree changes nothing: its clusters all hang from the
    /// same vertex.
    pub fn reverse(tree: &mut TopTree<T>, me: usize)
        requires
            old(tree).wf(),
            me < old(tree).rks().len(),
        ensures
            *final(tree) == *old(tree),
    {
        Rake::push(tree, me);
    }
}

impl CompNode {
    pub fn fix<T: Cluster>(&self, tree: &mut TopTree<T>)
        requires
            old(tree).wf(),
            old(tree).comp_ok(*self),
        ensures
            final(tree).wf(),
            final(tree).same_sizes(old(tree)),
            final(tree).es() == old(tree).es(),
            final(tree).rks() == old(tree).rks(),
            match *self {
                CompNode::Node(i) => final(tree).cs() == old(tree).cs().update(
                    i as int,
                    Compress::fixed_in(old(tree).cs()[i as int], old(tree)),
                ),
                CompNode::Leaf(_) => final(tree).cs() == old(tree).cs(),
            },
            final(tree).fixed_at(old(tree), *self),
            final(tree).links_eq(old(tree)),
            old(tree).shaped() ==> final(tree).shaped(),
    {
        match *self {
            CompNode::Node(i) => Compress::fix(tree, i),
            CompNode::Leaf(i) => Edge::fix(tree, i),
        }
    }

    pub fn push<T: Cluster>(&self, tree: &mut TopTree<T>)
        requires
            old(tree).wf(),
            old(tree).comp_ok(*self),
        ensures
            *final(tree) == *old(tree),
    {
        match *self {
            CompNode::Node(i) => Compress::push(tree, i),
            CompNode::Leaf(i) => Edge::push(tree, i),
        }
    }

    /// Reverses the path cluster, at most `fuel` compress levels deep.
    pub fn reverse<T: Cluster>(&self, tree: &mut TopTree<T>, fuel: usize)
        requires
            old(tree).wf(),
            old(tree).comp_ok(*self),
        ensures
            final(tree).wf(),
            final(tree).same_sizes(old(tree)),
            final(tree).vs() == old(tree).vs(),
            final(tree).rks() == old(tree).rks(),
            final(tree).links_perm(old(tree)),
            final(tree).reversed_at(old(tree), *self),
            final(tree).edges_kept(old(tree)),
            old(tree).shaped() ==> final(tree).shaped(),
            old(tree).shaped() ==> final(tree).kept_outside(old(tree), RakeNode::Leaf(*self)),
        decreases fuel, 3nat,
    {
        match *self {
            CompNode::Node(i) => Compress::reverse(tree, i, fuel),
            CompNode::Leaf(i) => Edge::reverse(tree, i),
        }
    }
}

impl RakeNode {
    pub fn fix<T: Cluster>(&self, tree: &mut TopTree<T>)
        requires
            old(tree).wf(),
            old(tree).rake_ok(*self),
        ensures
            final(tree).wf(),
            final(tree).same_sizes(old(tree)),
            final(tree).es() == old(tree).es(),
            final(tree).links_eq(old(tree)),
            final(tree).rake_fixed_at(old(tree), *self),
            old(tree).shaped() ==> final(tree).shaped(),
    {
        match *self {
            RakeNode::Node(i) => Rake::fix(tree, i),
            RakeNode::Leaf(c) => c.fix(tree),
        }
    }

    pub fn push<T: Cluster>(&self, tree: &mut TopTree<T>)
        requires
            old(tree).wf(),
            old(tree).rake_ok(*self),
        ensures
            *final(tree) == *old(tree),
    {
        match *self {
            RakeNode::Node(i) => Rake::push(tree, i),
            RakeNode::Leaf(c) => c.push(tree),
        }
    }

    pub fn reverse<T: Cluster>(&self, tree: &mut TopTree<T>, fuel: usize)
        requires
            old(tree).wf(),
            old(tree).rake_ok(*self),
        ensures
            final(tree).wf(),
            final(tree).same_sizes(old(tree)),
            final(tree).vs() == old(tree).vs(),
            final(tree).links_perm(old(tree)),
            match *self {
                RakeNode::Node(_) => *final(tree) == *old(tree),
                RakeNode::Leaf(c) => final(tree).reversed_at(old(tree), c),
            },
            old(tree).shaped() ==> final(tree).shaped(),
    {
        match *self {
            RakeNode::Node(i) => Rake::reverse(tree, i),
            RakeNode::Leaf(c) => c.reverse(tree, fuel),
        }
    }
}

impl ParentNode {
    pub fn fix<T: Cluster>(&self, tree: &mut TopTree<T>)
        requires
            old(tree).wf(),
            old(tree).parent_ok(Some(*self)),
        ensures
            final(tree).wf(),
            final(tree).same_sizes(old(tree)),
            final(tree).es() == old(tree).es(),
            final(tree).links_eq(old(tree)),
            final(tree).rake_fixed_at(old(tree), TopTree::<T>::pkey(*self)),
            old(tree).shaped() ==> final(tree).shaped(),
    {
        match *self {
            ParentNode::Compress(i) => Compress::fix(tree, i),
            ParentNode::Rake(i) => Rake::fix(tree, i),
        }
    }

    pub fn push<T: Cluster>(&self, tree: &mut TopTree<T>)
        requires
            old(tree).wf(),
            old(tree).parent_ok(Some(*self)),
        ensures
            *final(tree) == *old(tree),
    {
        match *self {
            ParentNode::Compress(i) => Compress::push(tree, i),
            ParentNode::Rake(i) => Rake::push(tree, i),
        }
    }
}

} // verus!

verus! {

impl<T: Cluster> Edge<T> {
    /// Adds the base cluster of an edge from `v` to `u` carrying `val`, not
    /// yet attached to any tree; both vertices get it as their handle.
    pub fn new(tree: &mut TopTree<T>, v: Vertex, u: Vertex, val: T) -> (r: usize)
        requires
            old(tree).wf(),
            old(tree).vx_ok(v),
            old(tree).vx_ok(u),
        ensures
            final(tree).wf(),
            r == old(tree).es().len(),
            final(tree).es() == old(tree).es().push(Edge { v: [v, u], par: None, me: r, val: val }),
            final(tree).cs() == old(tree).cs(),
            final(tree).rks() == old(tree).rks(),
            final(tree).grows_from(old(tree)),
            final(tree).vs().len() == old(tree).vs().len(),
            final(tree).handle_of(v) == Some(CompNode::Leaf(r)),
            final(tree).handle_of(u) == Some(CompNode::Leaf(r)),
            old(tree).shaped() ==> final(tree).shaped(),
    {
        let e = tree.edges.len();
        let r = tree.push_edge(Edge { v: [v, u], par: None, me: e, val: val });
        Edge::fix(tree, r);
        r
    }
}

impl<T: Cluster> Compress<T> {
    /// Adds a compress node over `left` and `right`, with no rake tree and no
    /// parent, and computes its boundary and fold.
    pub fn new(tree: &mut TopTree<T>, left: CompNode, right: CompNode) -> (r: usize)
        requires
            old(tree).wf(),
            old(tree).comp_ok(left),
            old(tree).comp_ok(right),
        ensures
            final(tree).wf(),
            r == old(tree).cs().len(),
            final(tree).cs().len() == old(tree).cs().len() + 1,
            final(tree).cs()[r as int].ch == [left, right],
            final(tree).cs()[r as int].rake is None,
            final(tree).cs()[r as int].par is None,
            !final(tree).cs()[r as int].guard,
            final(tree).comp_fixed(r as int),
            forall|i: int| 0 <= i < old(tree).cs().len() ==> final(tree).cs()[i] == old(tree).cs()[i],
            final(tree).es() == old(tree).es(),
            final(tree).rks() == old(tree).rks(),
            final(tree).grows_from(old(tree)),
            final(tree).vs().len() == old(tree).vs().len(),
    {
        let me = tree.comps.len();
        let a = left.endpoints(tree, 0);
        let b = right.endpoints(tree, 1);
        let r = tree.push_comp(Compress {
            ch: [left, right],
            v: [a, b],
            rake: None,
            par: None,
            me: me,
            rev: false,
            guard: false,
            fold: T::identity(),
        });
        Compress::fix(tree, r);
        r
    }
}

impl<T: Cluster> Rake<T> {
    /// Adds a rake node over `left` and `right`, with no parent, and computes
    /// its boundary and fold.
    pub fn new(tree: &mut TopTree<T>, left: RakeNode, right: RakeNode) -> (r: usize)
        requires
            old(tree).wf(),
            old(tree).rake_ok(left),
            old(tree).rake_ok(right),
        ensures
            final(tree).wf(),
            r == old(tree).rks().len(),
            final(tree).rks().len() == old(tree).rks().len() + 1,
            final(tree).rks()[r as int].ch == [left, right],
            final(tree).rks()[r as int].par is None,
            final(tree).rake_fixed(r as int),
            forall|i: int| 0 <= i < old(tree).rks().len() ==> final(tree).rks()[i] == old(tree).rks()[i],
            final(tree).es() == old(tree).es(),
            final(tree).cs() == old(tree).cs(),
            final(tree).vs() == old(tree).vs(),
    {
        let a = left.endpoints(tree, 0);
        let b = left.endpoints(tree, 1);
        let r = tree.push_rake(Rake { ch: [left, right], v: [a, b], par: None, fold: T::identity() });
        Rake::fix(tree, r);
        r
    }
}

} // verus!

verus! {

impl Vertex {
    /// Adds a vertex carrying `val`. It is linked to a fresh dummy vertex by
    /// an identity edge, so that it always has a cluster to stand in.
    pub fn new<T: Cluster>(tree: &mut TopTree<T>, val: T::V) -> (r: Vertex)
        requires
            old(tree).inv(),
        ensures
            final(tree).inv(),
            final(tree).grows_from(old(tree)),
            r.vertex == old(tree).vs().len(),
            final(tree).vs().len() == old(tree).vs().len() + 2,
            final(tree).value_of(r) == val,
            final(tree).es().len() == old(tree).es().len() + 1,
            final(tree).es().last() == (Edge {
                v: [r, Vertex { vertex: (r.vertex + 1) as usize }],
                par: None,
                me: old(tree).es().len() as usize,
                val: T::spec_identity(),
            }),
            final(tree).cs() == old(tree).cs(),
            final(tree).rks() == old(tree).rks(),
            final(tree).edges_kept(old(tree)),
            final(tree).handle_of(r) == Some(CompNode::Leaf(old(tree).es().len() as usize)),
            final(tree).handle_of(Vertex { vertex: (r.vertex + 1) as usize })
                == Some(CompNode::Leaf(old(tree).es().len() as usize)),
            call_ensures(T::V::default, (), final(tree).value_of(Vertex { vertex: (r.vertex + 1) as usize })),
            old(tree).shaped() ==> final(tree).shaped(),
    {
        let v = tree.push_vertex(val);
        let dummy = tree.push_vertex(T::V::default());
        let id = T::identity();
        let e = link(tree, v, dummy, id);
        assert(final(tree).all_handled()) by {
            assert forall|i: int| 0 <= i < tree.vertices.len() implies (#[trigger] tree.vertices@[i]).handle is Some by {
                if i < old(tree).vertices.len() {
                    assert(old(tree).vertices@[i].handle is Some);
                } else if i == v.vertex {
                } else {
                    assert(i == dummy.vertex);
                }
            }
        }
        v
    }

    /// Sets the value of the vertex and refreshes the folds that depend on it.
    pub fn value_set<T: Cluster>(&mut self, tree: &mut TopTree<T>, val: T::V)
        requires
            old(tree).inv(),
            old(tree).vx_ok(*old(self)),
        ensures
            *final(self) == *old(self),
            final(tree).inv(),
            final(tree).same_sizes_but(old(tree), *old(self)),
            final(tree).value_of(*old(self)) == val,
            final(tree).edges_kept(old(tree)),
            old(tree).shaped() ==> final(tree).shaped(),
            old(tree).shaped() ==> (old(tree).handle_of(*old(self)) matches Some(CompNode::Node(i))
                ==> final(tree).comp_fixed(i as int)),
    {
        VertexRaw::value_set(tree, *self, val);
    }
}

impl<T: Cluster> VertexRaw<T> {
    /// Exposes vertex `v`, sets its value to `val` and refixes the top cluster.
    pub fn value_set(tree: &mut TopTree<T>, v: Vertex, val: T::V)
        requires
            old(tree).inv(),
            old(tree).vx_ok(v),
        ensures
            final(tree).inv(),
            final(tree).same_sizes_but(old(tree), v),
            final(tree).value_of(v) == val,
            final(tree).edges_kept(old(tree)),
            old(tree).shaped() ==> final(tree).shaped(),
            old(tree).shaped() ==> (old(tree).handle_of(v) matches Some(CompNode::Node(i))
                ==> final(tree).comp_fixed(i as int)),
    {
        let h = v.handle(tree).unwrap();
        let root = expose_raw(tree, h);
        let ghost exposed = *tree;
        tree.set_value(v, val);
        let ghost valued = *tree;
        root.fix(tree);
        proof {
            if old(tree).shaped() {
                if let CompNode::Node(i) = h {
                    assert(valued.shaped());
                    assert(valued.down_ok_comp(i as int));
                    let n = valued.comps@[i as int];
                    assert(valued.up_ok(RakeNode::Leaf(CompNode::Node(i))));
                    TopTree::lemma_fix_makes_fixed(&valued, tree, i);
                }
            }
            TopTree::lemma_edges_kept_trans(old(tree), &exposed, tree);
        }
    }
}

} // verus!

verus! {

/// The operations every node of the tree offers, whatever its kind.
pub trait TVertex<T: Cluster>: Sized {
    /// The node names a slot of `tree`.
    spec fn stored_in(&self, tree: &TopTree<T>) -> bool;

    /// Recomputes what the node stores from its children.
    fn fix(&self, tree: &mut TopTree<T>)
        requires
            old(tree).wf(),
            self.stored_in(old(tree)),
        ensures
            final(tree).wf(),
            final(tree).same_sizes(old(tree)),
    ;

    /// Passes pending work down to the children.
    fn push(&self, tree: &mut TopTree<T>)
        requires
            old(tree).wf(),
            self.stored_in(old(tree)),
        ensures
            *final(tree) == *old(tree),
    ;

    /// Swaps the roles of the node's two boundary vertices.
    fn reverse(&self, tree: &mut TopTree<T>)
        requires
            old(tree).wf(),
            self.stored_in(old(tree)),
        ensures
            final(tree).wf(),
            final(tree).same_sizes(old(tree)),
    ;

    /// The node above.
    fn parent(&self, tree: &TopTree<T>) -> (r: Link<ParentNode>)
        requires
            tree.wf(),
            self.stored_in(tree),
        ensures
            tree.parent_ok(r),
    ;

    /// Sets the node above.
    fn parent_mut(&self, tree: &mut TopTree<T>, p: Link<ParentNode>)
        requires
            old(tree).wf(),
            self.stored_in(old(tree)),
            old(tree).parent_ok(p),
        ensures
            final(tree).wf(),
            final(tree).same_sizes(old(tree)),
    ;
}

impl<T: Cluster> TVertex<T> for CompNode {
    open spec fn stored_in(&self, tree: &TopTree<T>) -> bool {
        tree.comp_ok(*self)
    }

    fn fix(&self, tree: &mut TopTree<T>)
        ensures
            final(tree).fixed_at(old(tree), *self),
    {
        CompNode::fix(self, tree)
    }

    fn push(&self, tree: &mut TopTree<T>) {
        CompNode::push(self, tree)
    }

    fn reverse(&self, tree: &mut TopTree<T>)
        ensures
            final(tree).reversed_at(old(tree), *self),
    {
        let bound = tree.comps.len();
        CompNode::reverse(self, tree, bound)
    }

    fn parent(&self, tree: &TopTree<T>) -> (r: Link<ParentNode>) {
        CompNode::parent(self, tree)
    }

    fn parent_mut(&self, tree: &mut TopTree<T>, p: Link<ParentNode>)
        ensures
            final(tree).parent_set(old(tree), RakeNode::Leaf(*self), p),
    {
        CompNode::set_parent(self, tree, p)
    }
}

impl<T: Cluster> TVertex<T> for RakeNode {
    open spec fn stored_in(&self, tree: &TopTree<T>) -> bool {
        tree.rake_ok(*self)
    }

    fn fix(&self, tree: &mut TopTree<T>)
        ensures
            final(tree).rake_fixed_at(old(tree), *self),
    {
        RakeNode::fix(self, tree)
    }

    fn push(&self, tree: &mut TopTree<T>) {
        RakeNode::push(self, tree)
    }

    fn reverse(&self, tree: &mut TopTree<T>)
        ensures
            match *self {
                RakeNode::Node(_) => *final(tree) == *old(tree),
                RakeNode::Leaf(c) => final(tree).reversed_at(old(tree), c),
            },
    {
        let bound = tree.comps.len();
        RakeNode::reverse(self, tree, bound)
    }

    fn parent(&self, tree: &TopTree<T>) -> (r: Link<ParentNode>) {
        RakeNode::parent(self, tree)
    }

    fn parent_mut(&self, tree: &mut TopTree<T>, p: Link<ParentNode>)
        ensures
            final(tree).parent_set(old(tree), *self, p),
    {
        RakeNode::set_parent(self, tree, p)
    }
}

impl<T: Cluster> TVertex<T> for ParentNode {
    open spec fn stored_in(&self, tree: &TopTree<T>) -> bool {
        tree.parent_ok(Some(*self))
    }

    fn fix(&self, tree: &mut TopTree<T>)
        ensures
            final(tree).rake_fixed_at(old(tree), TopTree::<T>::pkey(*self)),
    {
        ParentNode::fix(self, tree)
    }

    fn push(&self, tree: &mut TopTree<T>) {
        ParentNode::push(self, tree)
    }

    fn reverse(&self, tree: &mut TopTree<T>)
        ensures
            match *self {
                ParentNode::Compress(i) => final(tree).reversed_at(old(tree), CompNode::Node(i)),
                ParentNode::Rake(_) => *final(tree) == *old(tree),
            },
    {
        match *self {
            ParentNode::Compress(i) => {
                let bound = tree.comps.len();
                Compress::reverse(tree, i, bound)
            },
            ParentNode::Rake(i) => Rake::reverse(tree, i),
        }
    }

    fn parent(&self, tree: &TopTree<T>) -> (r: Link<ParentNode>) {
        ParentNode::parent(self, tree)
    }

    fn parent_mut(&self, tree: &mut TopTree<T>, p: Link<ParentNode>)
        ensures
            final(tree).parent_set(old(tree), TopTree::<T>::pkey(*self), p),
    {
        match *self {
            ParentNode::Compress(i) => CompNode::Node(i).set_parent(tree, p),
            ParentNode::Rake(i) => RakeNode::Node(i).set_parent(tree, p),
        }
    }
}

/// A node with two children of one kind.
pub trait Node<T: Cluster> {
    type Child;

    fn child(&self, dir: usize) -> (r: Self::Child)
        requires
            dir < 2,
    ;

    fn child_mut(&mut self, dir: usize) -> (r: &mut Self::Child)
        requires
            dir < 2,
    ;
}

impl<T: Cluster> Node<T> for Compress<T> {
    type Child = CompNode;

    fn child(&self, dir: usize) -> (r: CompNode)
        ensures
            r == self.ch[dir as int],
    {
        self.ch[dir]
    }

    fn child_mut(&mut self, dir: usize) -> (r: &mut CompNode)
        ensures
            *r == old(self).ch[dir as int],
            final(self).ch@ == old(self).ch@.update(dir as int, *final(r)),
            *final(self) == (Compress { ch: final(self).ch, ..*old(self) }),
    {
        &mut self.ch[dir]
    }
}

impl<T: Cluster> Node<T> for Rake<T> {
    type Child = RakeNode;

    fn child(&self, dir: usize) -> (r: RakeNode)
        ensures
            r == self.ch[dir as int],
    {
        self.ch[dir]
    }

    fn child_mut(&mut self, dir: usize) -> (r: &mut RakeNode)
        ensures
            *r == old(self).ch[dir as int],
            final(self).ch@ == old(self).ch@.update(dir as int, *final(r)),
            *final(self) == (Rake { ch: final(self).ch, ..*old(self) }),
    {
        &mut self.ch[dir]
    }
}

} // verus!
