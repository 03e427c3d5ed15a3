use vstd::prelude::*;
use crate::node::{Cluster, TopTree, Vertex, VertexRaw, CompNode, RakeNode, ParentNode, Edge, Compress, Rake, Link, with_handle};

verus! {

impl<T: Cluster> TopTree<T> {
    /// An empty forest.
    pub fn new() -> (r: Self)
        ensures
            r.wf(),
            r.inv(),
            r.vs().len() == 0,
            r.es().len() == 0,
            r.cs().len() == 0,
            r.rks().len() == 0,
            r.shaped(),
    {
        TopTree {
            vertices: Vec::new(),
            edges: Vec::new(),
            comps: Vec::new(),
            rakes: Vec::new(),
            rank: Ghost(|k: RakeNode| 0int),
        }
    }

    /// A bound on the length of any walk along the links of the tree: the
    /// number of its nodes, plus one.
    pub(crate) fn walk_bound(&self) -> (r: usize)
        ensures
            r >= self.comps.len() && r >= self.rakes.len() && r >= 1,
    {
        self.edges.len().saturating_add(self.comps.len()).saturating_add(self.rakes.len()).saturating_add(1)
    }

    /// The side `dir` of compress node `n`.
    pub fn child(&self, n: usize, dir: usize) -> (r: CompNode)
        requires
            n < self.cs().len(),
            dir < 2,
        ensures
            r == self.cs()[n as int].ch[dir as int],
    {
        self.comps[n].ch[dir]
    }

    /// How many vertices the forest has, the dummy ones included.
    pub fn vertex_count(&self) -> (r: usize)
        ensures
            r == self.vs().len(),
    {
        self.vertices.len()
    }

    pub(crate) fn edge(&self, i: usize) -> (r: Edge<T>)
        requires
            i < self.edges.len(),
        ensures
            r == self.edges@[i as int],
    {
        self.edges[i]
    }

    /// The first edge slot that runs between `v` and `u`, if there is one.
    pub fn find_edge(&self, v: Vertex, u: Vertex) -> (r: Option<usize>)
        ensures
            match r {
                Some(e) => e < self.es().len() && self.joins(e as int, v, u),
                None => forall|e: int| 0 <= e < self.es().len() ==> !#[trigger] self.joins(e, v, u),
            },
    {
        let mut i: usize = 0;
        while i < self.edges.len()
            invariant
                i <= self.edges.len(),
                forall|e: int| 0 <= e < i ==> !#[trigger] self.joins(e, v, u),
            decreases self.edges.len() - i,
        {
            let ends = self.edges[i].v;
            if (ends[0] == v && ends[1] == u) || (ends[0] == u && ends[1] == v) {
                return Some(i);
            }
            i = i + 1;
        }
        None
    }

    pub(crate) fn comp(&self, i: usize) -> (r: Compress<T>)
        requires
            i < self.comps.len(),
        ensures
            r == self.comps@[i as int],
    {
        self.comps[i]
    }

    pub(crate) fn rake_at(&self, i: usize) -> (r: Rake<T>)
        requires
            i < self.rakes.len(),
        ensures
            r == self.rakes@[i as int],
    {
        self.rakes[i]
    }

    pub(crate) fn vertex_raw(&self, v: Vertex) -> (r: VertexRaw<T>)
        requires
            self.vx_ok(v),
        ensures
            r == self.vertices@[v.vertex as int],
    {
        self.vertices[v.vertex]
    }

    pub(crate) fn set_handle(&mut self, v: Vertex, h: Option<CompNode>)
        requires
            old(self).wf(),
            old(self).vx_ok(v),
            old(self).handle_ok(h),
            old(self).handle_at_end(v.vertex as int, h),
            h is Some,
        ensures
            final(self).wf(),
            final(self).rank == old(self).rank,
            final(self).vertices@ == with_handle(old(self).vertices@, v, h),
            final(self).edges@ == old(self).edges@,
            final(self).comps@ == old(self).comps@,
            final(self).rakes@ == old(self).rakes@,
            final(self).same_sizes(old(self)),
    {
        let old_raw = self.vertices[v.vertex];
        self.vertices.set(v.vertex, VertexRaw { val: old_raw.val, handle: h });
        assert(forall|i: int| 0 <= i < self.vertices.len() ==> self.handle_ok(#[trigger] self.vertices@[i].handle));
    }

    pub(crate) fn set_value(&mut self, v: Vertex, val: T::V)
        requires
            old(self).wf(),
            old(self).vx_ok(v),
        ensures
            final(self).wf(),
            final(self).rank == old(self).rank,
            final(self).vertices@ == old(self).vertices@.update(
                v.vertex as int,
                VertexRaw { val: val, handle: old(self).vertices@[v.vertex as int].handle },
            ),
            final(self).edges@ == old(self).edges@,
            final(self).comps@ == old(self).comps@,
            final(self).rakes@ == old(self).rakes@,
            old(self).shaped() ==> final(self).shaped(),
    {
        let old_raw = self.vertices[v.vertex];
        self.vertices.set(v.vertex, VertexRaw { val: val, handle: old_raw.handle });
        assert(forall|i: int| 0 <= i < self.vertices.len() ==> self.handle_ok(#[trigger] self.vertices@[i].handle));
        proof {
            if old(self).shaped() {
                TopTree::lemma_shaped_vertices(old(self), self);
            }
        }
    }

    pub(crate) fn set_edge(&mut self, i: usize, e: Edge<T>)
        requires
            old(self).wf(),
            i < old(self).edges.len(),
            old(self).edge_wf(e, i as int),
            e.v == old(self).edges@[i as int].v || e.v == [old(self).edges@[i as int].v[1], old(self).edges@[i as int].v[0]],
        ensures
            final(self).wf(),
            final(self).rank == old(self).rank,
            final(self).edges@ == old(self).edges@.update(i as int, e),
            final(self).vertices@ == old(self).vertices@,
            final(self).comps@ == old(self).comps@,
            final(self).rakes@ == old(self).rakes@,
            final(self).same_sizes(old(self)),
    {
        self.edges.set(i, e);
        assert(forall|j: int| 0 <= j < self.edges.len() ==> self.edge_wf(#[trigger] self.edges@[j], j));
        assert forall|j: int| 0 <= j < self.vertices.len() implies self.handle_at_end(j, #[trigger] self.vertices@[j].handle) by {
            assert(old(self).handle_at_end(j, old(self).vertices@[j].handle));
        }
    }

    pub(crate) fn set_comp(&mut self, i: usize, n: Compress<T>)
        requires
            old(self).wf(),
            i < old(self).comps.len(),
            old(self).comp_wf(n, i as int),
        ensures
            final(self).wf(),
            final(self).rank == old(self).rank,
            final(self).comps@ == old(self).comps@.update(i as int, n),
            final(self).vertices@ == old(self).vertices@,
            final(self).edges@ == old(self).edges@,
            final(self).rakes@ == old(self).rakes@,
            final(self).same_sizes(old(self)),
    {
        self.comps.set(i, n);
        assert(forall|j: int| 0 <= j < self.comps.len() ==> self.comp_wf(#[trigger] self.comps@[j], j));
    }

    pub(crate) fn set_rake_node(&mut self, i: usize, n: Rake<T>)
        requires
            old(self).wf(),
            i < old(self).rakes.len(),
            old(self).rake_wf(n),
        ensures
            final(self).wf(),
            final(self).rank == old(self).rank,
            final(self).rakes@ == old(self).rakes@.update(i as int, n),
            final(self).vertices@ == old(self).vertices@,
            final(self).edges@ == old(self).edges@,
            final(self).comps@ == old(self).comps@,
            final(self).same_sizes(old(self)),
    {
        self.rakes.set(i, n);
        assert(forall|j: int| 0 <= j < self.rakes.len() ==> self.rake_wf(#[trigger] self.rakes@[j]));
    }

    pub(crate) fn push_vertex(&mut self, val: T::V) -> (r: Vertex)
        requires
            old(self).wf(),
        ensures
            final(self).wf(),
            final(self).rank == old(self).rank,
            r.vertex == old(self).vertices.len(),
            final(self).vertices@ == old(self).vertices@.push(VertexRaw { val: val, handle: None }),
            final(self).edges@ == old(self).edges@,
            final(self).comps@ == old(self).comps@,
            final(self).rakes@ == old(self).rakes@,
            old(self).shaped() ==> final(self).shaped(),
    {
        let r = Vertex { vertex: self.vertices.len() };
        self.vertices.push(VertexRaw { val: val, handle: None });
        assert(forall|i: int| 0 <= i < self.vertices.len() ==> self.handle_ok(#[trigger] self.vertices@[i].handle));
        assert(forall|j: int| 0 <= j < self.edges.len() ==> self.edge_wf(#[trigger] self.edges@[j], j));
        assert(forall|j: int| 0 <= j < self.comps.len() ==> self.comp_wf(#[trigger] self.comps@[j], j));
        assert(forall|j: int| 0 <= j < self.rakes.len() ==> self.rake_wf(#[trigger] self.rakes@[j]));
        proof {
            if old(self).shaped() {
                TopTree::lemma_shaped_vertices(old(self), self);
            }
        }
        r
    }

    pub(crate) fn push_edge(&mut self, e: Edge<T>) -> (r: usize)
        requires
            old(self).wf(),
            old(self).edge_wf(e, old(self).edges.len() as int),
        ensures
            final(self).wf(),
            final(self).rank == old(self).rank,
            r == old(self).edges.len(),
            final(self).edges@ == old(self).edges@.push(e),
            final(self).vertices@ == old(self).vertices@,
            final(self).comps@ == old(self).comps@,
            final(self).rakes@ == old(self).rakes@,
            old(self).shaped() && e.par is None ==> final(self).shaped(),
    {
        let r = self.edges.len();
        self.edges.push(e);
        assert(forall|i: int| 0 <= i < self.vertices.len() ==> self.handle_ok(#[trigger] self.vertices@[i].handle));
        assert(forall|j: int| 0 <= j < self.edges.len() ==> self.edge_wf(#[trigger] self.edges@[j], j));
        assert(forall|j: int| 0 <= j < self.comps.len() ==> self.comp_wf(#[trigger] self.comps@[j], j));
        assert(forall|j: int| 0 <= j < self.rakes.len() ==> self.rake_wf(#[trigger] self.rakes@[j]));
        proof {
            if old(self).shaped() && e.par is None {
                TopTree::lemma_shaped_push_edge(old(self), self);
            }
        }
        r
    }

    pub(crate) fn push_comp(&mut self, n: Compress<T>) -> (r: usize)
        requires
            old(self).wf(),
            old(self).comp_wf(n, old(self).comps.len() as int),
        ensures
            final(self).wf(),
            final(self).rank == old(self).rank,
            r == old(self).comps.len(),
            final(self).comps@ == old(self).comps@.push(n),
            final(self).vertices@ == old(self).vertices@,
            final(self).edges@ == old(self).edges@,
            final(self).rakes@ == old(self).rakes@,
    {
        let r = self.comps.len();
        self.comps.push(n);
        assert(forall|i: int| 0 <= i < self.vertices.len() ==> self.handle_ok(#[trigger] self.vertices@[i].handle));
        assert(forall|j: int| 0 <= j < self.edges.len() ==> self.edge_wf(#[trigger] self.edges@[j], j));
        assert(forall|j: int| 0 <= j < self.comps.len() ==> self.comp_wf(#[trigger] self.comps@[j], j));
        assert(forall|j: int| 0 <= j < self.rakes.len() ==> self.rake_wf(#[trigger] self.rakes@[j]));
        r
    }

    pub(crate) fn push_rake(&mut self, n: Rake<T>) -> (r: usize)
        requires
            old(self).wf(),
            old(self).rake_wf(n),
        ensures
            final(self).wf(),
            final(self).rank == old(self).rank,
            r == old(self).rakes.len(),
            final(self).rakes@ == old(self).rakes@.push(n),
            final(self).vertices@ == old(self).vertices@,
            final(self).edges@ == old(self).edges@,
            final(self).comps@ == old(self).comps@,
    {
        let r = self.rakes.len();
        self.rakes.push(n);
        assert(forall|i: int| 0 <= i < self.vertices.len() ==> self.handle_ok(#[trigger] self.vertices@[i].handle));
        assert(forall|j: int| 0 <= j < self.edges.len() ==> self.edge_wf(#[trigger] self.edges@[j], j));
        assert(forall|j: int| 0 <= j < self.comps.len() ==> self.comp_wf(#[trigger] self.comps@[j], j));
        assert(forall|j: int| 0 <= j < self.rakes.len() ==> self.rake_wf(#[trigger] self.rakes@[j]));
        r
    }
    pub(crate) fn set_comp_child(&mut self, i: usize, d: usize, c: CompNode)
        requires
            old(self).wf(),
            i < old(self).comps.len(),
            d < 2,
            old(self).comp_ok(c),
        ensures
            final(self).wf(),
            final(self).rank == old(self).rank,
            final(self).comps@ == old(self).comps@.update(
                i as int,
                Compress {
                    ch: if d == 0 { [c, old(self).comps@[i as int].ch[1]] } else { [old(self).comps@[i as int].ch[0], c] },
                    ..old(self).comps@[i as int]
                },
            ),
            final(self).vertices@ == old(self).vertices@,
            final(self).edges@ == old(self).edges@,
            final(self).rakes@ == old(self).rakes@,
            final(self).same_sizes(old(self)),
    {
        let n = self.comp(i);
        let ch = if d == 0 { [c, n.ch[1]] } else { [n.ch[0], c] };
        self.set_comp(i, Compress { ch: ch, ..n });
    }

    pub(crate) fn set_comp_rake(&mut self, i: usize, r: Link<RakeNode>)
        requires
            old(self).wf(),
            i < old(self).comps.len(),
            old(self).rake_link_ok(r),
        ensures
            final(self).wf(),
            final(self).rank == old(self).rank,
            final(self).comps@ == old(self).comps@.update(
                i as int,
                Compress { rake: r, ..old(self).comps@[i as int] },
            ),
            final(self).vertices@ == old(self).vertices@,
            final(self).edges@ == old(self).edges@,
            final(self).rakes@ == old(self).rakes@,
            final(self).same_sizes(old(self)),
    {
        let n = self.comp(i);
        self.set_comp(i, Compress { rake: r, ..n });
    }

    pub(crate) fn set_guard(&mut self, i: usize, g: bool)
        requires
            old(self).wf(),
            i < old(self).comps.len(),
        ensures
            final(self).wf(),
            final(self).rank == old(self).rank,
            final(self).comps@ == old(self).comps@.update(
                i as int,
                Compress { guard: g, ..old(self).comps@[i as int] },
            ),
            final(self).vertices@ == old(self).vertices@,
            final(self).edges@ == old(self).edges@,
            final(self).rakes@ == old(self).rakes@,
            final(self).same_sizes(old(self)),
            final(self).links_perm(old(self)),
            old(self).shaped() ==> final(self).shaped(),
    {
        let n = self.comp(i);
        self.set_comp(i, Compress { guard: g, ..n });
        proof {
            if old(self).shaped() {
                TopTree::lemma_shaped_links_perm(old(self), self);
            }
        }
    }

    pub(crate) fn set_rake_child(&mut self, i: usize, d: usize, c: RakeNode)
        requires
            old(self).wf(),
            i < old(self).rakes.len(),
            d < 2,
            old(self).rake_ok(c),
        ensures
            final(self).wf(),
            final(self).rank == old(self).rank,
            final(self).rakes@ == old(self).rakes@.update(
                i as int,
                Rake {
                    ch: if d == 0 { [c, old(self).rakes@[i as int].ch[1]] } else { [old(self).rakes@[i as int].ch[0], c] },
                    ..old(self).rakes@[i as int]
                },
            ),
            final(self).vertices@ == old(self).vertices@,
            final(self).edges@ == old(self).edges@,
            final(self).comps@ == old(self).comps@,
            final(self).same_sizes(old(self)),
    {
        let n = self.rake_at(i);
        let ch = if d == 0 { [c, n.ch[1]] } else { [n.ch[0], c] };
        self.set_rake_node(i, Rake { ch: ch, ..n });
    }
}

} // verus!
