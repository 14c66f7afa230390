//! The directed graph structure: a vertex set, a weighted edge map, and
//! inbound/outbound adjacency indexes kept consistent with the edge map.

use crate::error::GraphError;
use crate::store::AdjMap;
use crate::store::EdgeMap;
use crate::store::EdgeSet;
use crate::store::VecMap;
use crate::store::VertexSet;
use vstd::prelude::*;

verus! {

/// A mutable directed graph.
///
/// An edge `(u, v)` is present in the edge map exactly when `v` lies in the
/// outbound index of `u` and `u` lies in the inbound index of `v`; an index
/// entry whose set would be empty is pruned, so the absence of a key signals
/// the absence of edges on that side.
pub struct Graph {
    pub(crate) name: String,
    pub(crate) vertices: VertexSet,
    pub(crate) edges: EdgeMap,
    pub(crate) inbound: AdjMap,
    pub(crate) outbound: AdjMap,
}


/// Every edge endpoint is a vertex.
pub open(crate) spec fn wf_closed(vs: Set<usize>, em: Map<(usize, usize), i64>) -> bool {
    forall|e: (usize, usize)| #[trigger] em.contains_key(e) ==> vs.contains(e.0) && vs.contains(e.1)
}

/// The outbound index mirrors the edge map exactly, and an entry is present
/// only while it has at least one member.
pub open(crate) spec fn wf_out(em: Map<(usize, usize), i64>, outb: Map<usize, Set<usize>>) -> bool {
    &&& forall|u: usize, v: usize|
        #![trigger em.contains_key((u, v))]
        #![trigger outb[u].contains(v)]
        em.contains_key((u, v)) <==> (outb.contains_key(u) && outb[u].contains(v))
    &&& forall|u: usize|
        #[trigger] outb.contains_key(u) ==> exists|v: usize| outb[u].contains(v)
}

/// The inbound index mirrors the edge map exactly, and an entry is present
/// only while it has at least one member.
pub open(crate) spec fn wf_in(em: Map<(usize, usize), i64>, inb: Map<usize, Set<usize>>) -> bool {
    &&& forall|u: usize, v: usize|
        #![trigger em.contains_key((u, v))]
        #![trigger inb[v].contains(u)]
        em.contains_key((u, v)) <==> (inb.contains_key(v) && inb[v].contains(u))
    &&& forall|v: usize|
        #[trigger] inb.contains_key(v) ==> exists|u: usize| inb[v].contains(u)
}

/// Both adjacency indexes mirror the edge map.
pub open(crate) spec fn wf_links(
    em: Map<(usize, usize), i64>,
    inb: Map<usize, Set<usize>>,
    outb: Map<usize, Set<usize>>,
) -> bool {
    wf_in(em, inb) && wf_out(em, outb)
}

/// Removing an edge and pruning the outbound entry of its source keeps the
/// outbound index exact.
#[verifier::spinoff_prover]
pub(crate) proof fn lemma_prune_out(
    em: Map<(usize, usize), i64>,
    outb: Map<usize, Set<usize>>,
    a0: usize,
    b0: usize,
)
    requires
        wf_out(em, outb),
        em.contains_key((a0, b0)),
    ensures
        wf_out(
            em.remove((a0, b0)),
            (if outb[a0].remove(b0).is_empty() {
                outb.remove(a0)
            } else {
                outb.insert(a0, outb[a0].remove(b0))
            }),
        ),
{
    let em2 = em.remove((a0, b0));
    let oout = outb[a0].remove(b0);
    let outb2 = if oout.is_empty() {
        outb.remove(a0)
    } else {
        outb.insert(a0, oout)
    };
    assert(outb.contains_key(a0) && outb[a0].contains(b0));
    assert forall|u: usize, v: usize|
        #![trigger em2.contains_key((u, v))]
        #![trigger outb2[u].contains(v)]
        em2.contains_key((u, v)) <==> (outb2.contains_key(u) && outb2[u].contains(v)) by {
        assert(em.contains_key((u, v)) <==> (outb.contains_key(u) && outb[u].contains(v)));
        if u == a0 {
            if oout.is_empty() {
                if outb[a0].contains(v) && v != b0 {
                    assert(oout.contains(v));
                    assert(oout =~= Set::<usize>::empty());
                }
            }
        } else {
            assert(outb2.contains_key(u) == outb.contains_key(u));
            if outb2.contains_key(u) {
                assert(outb2[u] == outb[u]);
            }
        }
    }
    assert forall|u: usize| #[trigger] outb2.contains_key(u) implies exists|v: usize|
        outb2[u].contains(v) by {
        if u == a0 && !oout.is_empty() {
            if forall|v: usize| !oout.contains(v) {
                assert(oout =~= Set::<usize>::empty());
            }
            let v = choose|v: usize| oout.contains(v);
            assert(outb2[u].contains(v));
        }
        if u != a0 {
            let v = choose|v: usize| outb[u].contains(v);
            assert(outb2[u].contains(v));
        }
    }
}

/// Removing an edge and pruning the inbound entry of its target keeps the
/// inbound index exact.
#[verifier::spinoff_prover]
pub(crate) proof fn lemma_prune_in(
    em: Map<(usize, usize), i64>,
    inb: Map<usize, Set<usize>>,
    a0: usize,
    b0: usize,
)
    requires
        wf_in(em, inb),
        em.contains_key((a0, b0)),
    ensures
        wf_in(
            em.remove((a0, b0)),
            (if inb[b0].remove(a0).is_empty() {
                inb.remove(b0)
            } else {
                inb.insert(b0, inb[b0].remove(a0))
            }),
        ),
{
    let em2 = em.remove((a0, b0));
    let oin = inb[b0].remove(a0);
    let inb2 = if oin.is_empty() {
        inb.remove(b0)
    } else {
        inb.insert(b0, oin)
    };
    assert(inb.contains_key(b0) && inb[b0].contains(a0));
    assert forall|u: usize, v: usize|
        #![trigger em2.contains_key((u, v))]
        #![trigger inb2[v].contains(u)]
        em2.contains_key((u, v)) <==> (inb2.contains_key(v) && inb2[v].contains(u)) by {
        assert(em.contains_key((u, v)) <==> (inb.contains_key(v) && inb[v].contains(u)));
        if v == b0 {
            if oin.is_empty() {
                if inb[b0].contains(u) && u != a0 {
                    assert(oin.contains(u));
                    assert(oin =~= Set::<usize>::empty());
                }
            }
        } else {
            assert(inb2.contains_key(v) == inb.contains_key(v));
            if inb2.contains_key(v) {
                assert(inb2[v] == inb[v]);
            }
        }
    }
    assert forall|v: usize| #[trigger] inb2.contains_key(v) implies exists|u: usize|
        inb2[v].contains(u) by {
        if v == b0 && !oin.is_empty() {
            if forall|u: usize| !oin.contains(u) {
                assert(oin =~= Set::<usize>::empty());
            }
            let u = choose|u: usize| oin.contains(u);
            assert(inb2[v].contains(u));
        }
        if v != b0 {
            let u = choose|u: usize| inb[v].contains(u);
            assert(inb2[v].contains(u));
        }
    }
}

impl Graph {
    /// The set of vertices.
    pub open(crate) spec fn verts(&self) -> Set<usize> {
        self.vertices@
    }

    /// The weighted edge relation.
    pub open(crate) spec fn edge_map(&self) -> Map<(usize, usize), i64> {
        self.edges@
    }

    /// Whether the edge `(u, v)` is present.
    pub open(crate) spec fn has_edge(&self, u: usize, v: usize) -> bool {
        self.edge_map().contains_key((u, v))
    }

    /// The graph's name, as a sequence of characters.
    pub open(crate) spec fn spec_name(&self) -> Seq<char> {
        self.name@
    }

    /// The vertices with an edge into `a`.
    pub open(crate) spec fn spec_inbound_of(&self, a: usize) -> Set<usize> {
        Set::new(|u: usize| self.has_edge(u, a))
    }

    /// The vertices with an edge out of `a`.
    pub open(crate) spec fn spec_outbound_of(&self, a: usize) -> Set<usize> {
        Set::new(|v: usize| self.has_edge(a, v))
    }

    /// The vertices joined to `a` by an edge in either direction.
    pub open(crate) spec fn spec_neighbours_of(&self, a: usize) -> Set<usize> {
        self.spec_inbound_of(a).union(self.spec_outbound_of(a))
    }

    /// Whether `a` has no inbound edge.
    pub open(crate) spec fn spec_is_source(&self, a: usize) -> bool {
        forall|u: usize| !self.has_edge(u, a)
    }

    /// Whether `a` has no outbound edge.
    pub open(crate) spec fn spec_is_sink(&self, a: usize) -> bool {
        forall|v: usize| !self.has_edge(a, v)
    }

    /// The adjacency indexes agree with the edge map, empty index entries are
    /// pruned, and every edge endpoint is a vertex.
    pub open(crate) spec fn wf(&self) -> bool {
        &&& self.vertices.wf()
        &&& self.edges.wf()
        &&& self.inbound.wf()
        &&& self.outbound.wf()
        &&& wf_closed(self.vertices@, self.edges@)
        &&& wf_links(self.edges@, self.inbound@, self.outbound@)
    }

    /// A graph stays well-formed when only its name changes or its vertex set
    /// grows, with edges and indexes untouched.
    pub(crate) proof fn lemma_wf_same_edges(pre: &Graph, post: &Graph)
        requires
            pre.wf(),
            post.vertices.wf(),
            pre.verts().subset_of(post.verts()),
            post.edges == pre.edges,
            post.inbound == pre.inbound,
            post.outbound == pre.outbound,
        ensures
            post.wf(),
    {
        assert forall|e: (usize, usize)| #[trigger]
            post.edges@.contains_key(e) implies post.vertices@.contains(e.0)
            && post.vertices@.contains(e.1) by {
            assert(pre.vertices@.contains(e.0) && pre.vertices@.contains(e.1));
        }
        assert(wf_links(post.edges@, post.inbound@, post.outbound@) == wf_links(
            pre.edges@,
            pre.inbound@,
            pre.outbound@,
        ));
    }

    pub fn new() -> (r: Graph)
        ensures
            r.wf(),
            r.verts() == Set::<usize>::empty(),
            r.edge_map() == Map::<(usize, usize), i64>::empty(),
            r.spec_name() == Seq::<char>::empty(),
    {
        let r = Graph {
            name: "".to_string(),
            vertices: VertexSet::new(),
            edges: EdgeMap::new(),
            inbound: AdjMap::new(),
            outbound: AdjMap::new(),
        };
        proof {
            reveal_strlit("");
            assert(r.spec_name() =~= Seq::<char>::empty());
        }
        r
    }

    pub fn new_with_name(name: &str) -> (r: Graph)
        ensures
            r.wf(),
            r.verts() == Set::<usize>::empty(),
            r.edge_map() == Map::<(usize, usize), i64>::empty(),
            r.spec_name() == name@,
    {
        Graph {
            name: name.to_string(),
            vertices: VertexSet::new(),
            edges: EdgeMap::new(),
            inbound: AdjMap::new(),
            outbound: AdjMap::new(),
        }
    }

    /// Inserts both endpoints and upserts the edge weight; never fails.
    pub fn add_edge_raw(&mut self, a: usize, b: usize, weight: i64) -> (r: Result<
        (),
        GraphError,
    >)
        requires
            old(self).wf(),
        ensures
            final(self).wf(),
            r.is_ok(),
            final(self).verts() == old(self).verts().insert(a).insert(b),
            final(self).edge_map() == old(self).edge_map().insert((a, b), weight),
            final(self).spec_name() == old(self).spec_name(),
    {
        self.vertices.insert(a);
        self.vertices.insert(b);
        self.edges.insert(a, b, weight);
        self.inbound.add_member(b, a);
        self.outbound.add_member(a, b);
        proof {
            assert forall|u: usize, v: usize|
                self.has_edge(u, v) <==> (#[trigger] self.outbound@.contains_key(u)
                    && #[trigger] self.outbound@[u].contains(v)) by {
                assert(old(self).has_edge(u, v) <==> (old(self).outbound@.contains_key(u)
                    && old(self).outbound@[u].contains(v)));
                if u == a {
                    assert(self.outbound@.contains_key(a));
                    assert(self.outbound@[a] == (if old(self).outbound@.contains_key(a) {
                        old(self).outbound@[a]
                    } else {
                        Set::<usize>::empty()
                    }).insert(b));
                    assert(self.outbound@[a].contains(v) <==> (old(self).outbound@.contains_key(a)
                        && old(self).outbound@[a].contains(v)) || v == b);
                    assert(self.has_edge(a, v) <==> old(self).has_edge(a, v) || v == b);
                } else {
                    assert(self.outbound@.contains_key(u) == old(self).outbound@.contains_key(u));
                    if self.outbound@.contains_key(u) {
                        assert(self.outbound@[u] == old(self).outbound@[u]);
                    }
                    assert(self.has_edge(u, v) == old(self).has_edge(u, v));
                }
            }
            assert forall|u: usize, v: usize|
                self.has_edge(u, v) <==> (#[trigger] self.inbound@.contains_key(v)
                    && #[trigger] self.inbound@[v].contains(u)) by {
                assert(old(self).has_edge(u, v) <==> (old(self).inbound@.contains_key(v)
                    && old(self).inbound@[v].contains(u)));
                if v == b {
                    assert(self.inbound@.contains_key(b));
                    assert(self.inbound@[b] == (if old(self).inbound@.contains_key(b) {
                        old(self).inbound@[b]
                    } else {
                        Set::<usize>::empty()
                    }).insert(a));
                    assert(self.inbound@[b].contains(u) <==> (old(self).inbound@.contains_key(b)
                        && old(self).inbound@[b].contains(u)) || u == a);
                    assert(self.has_edge(u, b) <==> old(self).has_edge(u, b) || u == a);
                } else {
                    assert(self.inbound@.contains_key(v) == old(self).inbound@.contains_key(v));
                    if self.inbound@.contains_key(v) {
                        assert(self.inbound@[v] == old(self).inbound@[v]);
                    }
                    assert(self.has_edge(u, v) == old(self).has_edge(u, v));
                }
            }
            assert forall|u: usize| #[trigger]
                self.outbound@.contains_key(u) implies exists|v: usize|
                self.outbound@[u].contains(v) by {
                if u == a {
                    assert(self.outbound@[a].contains(b));
                } else {
                    assert(old(self).outbound@.contains_key(u));
                    let v = choose|v: usize| old(self).outbound@[u].contains(v);
                    assert(self.outbound@[u].contains(v));
                }
            }
            assert forall|v: usize| #[trigger]
                self.inbound@.contains_key(v) implies exists|u: usize|
                self.inbound@[v].contains(u) by {
                if v == b {
                    assert(self.inbound@[b].contains(a));
                } else {
                    assert(old(self).inbound@.contains_key(v));
                    let u = choose|u: usize| old(self).inbound@[v].contains(u);
                    assert(self.inbound@[v].contains(u));
                }
            }
        }
        Ok(())
    }

    /// Inserts a vertex; never fails and never disturbs edges.
    pub fn add_vertex_raw(&mut self, a: usize) -> (r: Result<(), GraphError>)
        requires
            old(self).wf(),
        ensures
            final(self).wf(),
            r.is_ok(),
            final(self).verts() == old(self).verts().insert(a),
            final(self).edge_map() == old(self).edge_map(),
            final(self).spec_name() == old(self).spec_name(),
    {
        self.vertices.insert(a);
        proof {
            Graph::lemma_wf_same_edges(old(self), self);
        }
        Ok(())
    }

    pub fn has_vertex_raw(&self, a: &usize) -> (r: bool)
        ensures
            r == self.verts().contains(*a),
    {
        self.vertices.contains(*a)
    }

    pub fn has_edge_raw(&self, t: &(usize, usize)) -> (r: bool)
        requires
            self.wf(),
        ensures
            r == self.has_edge(t.0, t.1),
    {
        self.edges.contains_key(t.0, t.1)
    }

    /// The graph's name.
    pub fn name(&self) -> (r: String)
        ensures
            r@ == self.spec_name(),
    {
        self.name.clone()
    }

    /// Replaces the graph's name.
    pub fn rename(&mut self, name: String)
        requires
            old(self).wf(),
        ensures
            final(self).wf(),
            final(self).spec_name() == name@,
            final(self).verts() == old(self).verts(),
            final(self).edge_map() == old(self).edge_map(),
    {
        self.name = name;
        proof {
            Graph::lemma_wf_same_edges(old(self), self);
        }
    }

    /// The vertex set, borrowed.
    pub fn vertices(&self) -> (r: &VertexSet)
        requires
            self.wf(),
        ensures
            r@ == self.verts(),
            r.wf(),
    {
        &self.vertices
    }

    /// The weighted edge map, borrowed.
    pub fn edges(&self) -> (r: &EdgeMap)
        requires
            self.wf(),
        ensures
            r@ == self.edge_map(),
            r.wf(),
    {
        &self.edges
    }
}

impl Graph {
    /// The set of vertices with an edge into `a`.
    pub fn inbound(&self, a: &usize) -> (r: Result<VertexSet, GraphError>)
        requires
            self.wf(),
        ensures
            match r {
                Ok(s) => self.verts().contains(*a) && s.wf() && s@ == self.spec_inbound_of(*a),
                Err(e) => !self.verts().contains(*a) && e is VertexError,
            },
    {
        if self.vertices.contains(*a) {
            match self.inbound.get(*a) {
                Some(v) => {
                    let s = v.clone();
                    proof {
                        assert(s@ =~= self.spec_inbound_of(*a));
                    }
                    Ok(s)
                },
                None => {
                    let s = VertexSet::new();
                    proof {
                        assert(s@ =~= self.spec_inbound_of(*a));
                    }
                    Ok(s)
                },
            }
        } else {
            Err(GraphError::VertexError("vertex not found in graph".to_string()))
        }
    }

    /// The set of vertices with an edge out of `a`.
    pub fn outbound(&self, a: &usize) -> (r: Result<VertexSet, GraphError>)
        requires
            self.wf(),
        ensures
            match r {
                Ok(s) => self.verts().contains(*a) && s.wf() && s@ == self.spec_outbound_of(*a),
                Err(e) => !self.verts().contains(*a) && e is VertexError,
            },
    {
        if self.vertices.contains(*a) {
            match self.outbound.get(*a) {
                Some(v) => {
                    let s = v.clone();
                    proof {
                        assert(s@ =~= self.spec_outbound_of(*a));
                    }
                    Ok(s)
                },
                None => {
                    let s = VertexSet::new();
                    proof {
                        assert(s@ =~= self.spec_outbound_of(*a));
                    }
                    Ok(s)
                },
            }
        } else {
            Err(GraphError::VertexError("vertex not found in graph".to_string()))
        }
    }

    /// The set of vertices joined to `a` in either direction.
    pub fn neighbours(&self, a: &usize) -> (r: Result<VertexSet, GraphError>)
        requires
            self.wf(),
        ensures
            match r {
                Ok(s) => self.verts().contains(*a) && s.wf() && s@ == self.spec_neighbours_of(*a),
                Err(e) => !self.verts().contains(*a) && e is VertexError,
            },
    {
        if self.vertices.contains(*a) {
            let mut s = match self.inbound.get(*a) {
                Some(v) => v.clone(),
                None => VertexSet::new(),
            };
            proof {
                assert(s@ =~= self.spec_inbound_of(*a));
            }
            match self.outbound.get(*a) {
                Some(v) => {
                    v.union_into(&mut s);
                    proof {
                        assert(s@ =~= self.spec_neighbours_of(*a));
                    }
                },
                None => {
                    proof {
                        assert(s@ =~= self.spec_neighbours_of(*a));
                    }
                },
            }
            Ok(s)
        } else {
            Err(GraphError::VertexError("vertex not found in graph".to_string()))
        }
    }

    /// Every edge incident to `a`, oriented as stored.
    #[verifier::rlimit(60)]
    pub fn incident(&self, a: &usize) -> (r: Result<EdgeSet, GraphError>)
        requires
            self.wf(),
        ensures
            match r {
                Ok(s) => self.verts().contains(*a) && s.wf() && s@ == Set::new(
                    |e: (usize, usize)| self.edge_map().contains_key(e) && (e.0 == *a || e.1 == *a),
                ),
                Err(e) => !self.verts().contains(*a) && e is VertexError,
            },
    {
        if self.vertices.contains(*a) {
            let a0 = *a;
            let mut s = EdgeSet::new();
            match self.inbound.get(a0) {
                Some(v) => {
                    let mut i: usize = 0;
                    while i < v.items.len()
                        invariant
                            self.wf(),
                            s.wf(),
                            self.inbound@.contains_key(a0),
                            v@ == self.inbound@[a0],
                            v.wf(),
                            i <= v.items.len(),
                            s@ == Set::new(
                                |e: (usize, usize)| v.items@.take(i as int).to_set().contains(e.0)
                                    && e.1 == a0,
                            ),
                        decreases v.items.len() - i,
                    {
                        s.insert(v.items[i], a0);
                        proof {
                            broadcast use vstd::seq_lib::lemma_seq_contains_after_push;

                            assert(v.items@.take(i + 1) == v.items@.take(i as int).push(
                                v.items@[i as int],
                            ));
                            assert(s@ =~= Set::new(
                                |e: (usize, usize)| v.items@.take(i + 1).to_set().contains(e.0)
                                    && e.1 == a0,
                            ));
                        }
                        i = i + 1;
                    }
                    proof {
                        assert(v.items@.take(v.items@.len() as int) == v.items@);
                    }
                },
                None => {},
            }
            proof {
                assert(s@ =~= Set::new(
                    |e: (usize, usize)| self.edge_map().contains_key(e) && e.1 == a0,
                ));
            }
            let ghost mid = s@;
            match self.outbound.get(a0) {
                Some(v) => {
                    let mut i: usize = 0;
                    while i < v.items.len()
                        invariant
                            self.wf(),
                            s.wf(),
                            self.outbound@.contains_key(a0),
                            v@ == self.outbound@[a0],
                            v.wf(),
                            i <= v.items.len(),
                            s@ == mid.union(
                                Set::new(
                                    |e: (usize, usize)| v.items@.take(
                                        i as int,
                                    ).to_set().contains(e.1) && e.0 == a0,
                                ),
                            ),
                        decreases v.items.len() - i,
                    {
                        s.insert(a0, v.items[i]);
                        proof {
                            broadcast use vstd::seq_lib::lemma_seq_contains_after_push;

                            assert(v.items@.take(i + 1) == v.items@.take(i as int).push(
                                v.items@[i as int],
                            ));
                            assert(s@ =~= mid.union(
                                Set::new(
                                    |e: (usize, usize)| v.items@.take(i + 1).to_set().contains(e.1)
                                        && e.0 == a0,
                                ),
                            ));
                        }
                        i = i + 1;
                    }
                    proof {
                        assert(v.items@.take(v.items@.len() as int) == v.items@);
                    }
                },
                None => {},
            }
            proof {
                assert(s@ =~= Set::new(
                    |e: (usize, usize)| self.edge_map().contains_key(e) && (e.0 == a0 || e.1 == a0),
                ));
            }
            Ok(s)
        } else {
            Err(GraphError::VertexError("vertex not found in graph".to_string()))
        }
    }

    /// Every vertex that is an endpoint of some edge.
    pub fn endpoints(&self) -> (r: VertexSet)
        requires
            self.wf(),
        ensures
            r.wf(),
            r@ == Set::new(
                |x: usize| exists|y: usize| self.has_edge(x, y) || self.has_edge(y, x),
            ),
    {
        let mut s = VertexSet::new();
        self.inbound.keys_into(&mut s);
        self.outbound.keys_into(&mut s);
        proof {
            assert forall|x: usize| s@.contains(x) implies exists|y: usize|
                self.has_edge(x, y) || self.has_edge(y, x) by {
                if self.inbound@.dom().contains(x) {
                    let u = choose|u: usize| self.inbound@[x].contains(u);
                    assert(self.has_edge(u, x));
                } else {
                    let v = choose|v: usize| self.outbound@[x].contains(v);
                    assert(self.has_edge(x, v));
                }
            }
            assert forall|x: usize|
                (exists|y: usize| self.has_edge(x, y) || self.has_edge(y, x)) implies s@.contains(
                x,
            ) by {
                let y = choose|y: usize| self.has_edge(x, y) || self.has_edge(y, x);
                if self.has_edge(x, y) {
                    assert(self.outbound@.contains_key(x));
                } else {
                    assert(self.inbound@.contains_key(x));
                }
            }
            assert(s@ =~= Set::new(
                |x: usize| exists|y: usize| self.has_edge(x, y) || self.has_edge(y, x),
            ));
        }
        s
    }

    /// Whether `a` has no inbound edge; an error when `a` is not a vertex.
    pub fn is_source(&self, a: &usize) -> (r: Result<bool, GraphError>)
        requires
            self.wf(),
        ensures
            match r {
                Ok(b) => self.verts().contains(*a) && b == self.spec_is_source(*a),
                Err(e) => !self.verts().contains(*a) && e is VertexError,
            },
    {
        if self.vertices.contains(*a) {
            let has_in = self.inbound.contains_key(*a);
            proof {
                if has_in {
                    let u = choose|u: usize| self.inbound@[*a].contains(u);
                    assert(self.has_edge(u, *a));
                }
            }
            Ok(!has_in)
        } else {
            Err(GraphError::VertexError("vertex not found in graph".to_string()))
        }
    }

    /// Whether `a` has no outbound edge; an error when `a` is not a vertex.
    pub fn is_sink(&self, a: &usize) -> (r: Result<bool, GraphError>)
        requires
            self.wf(),
        ensures
            match r {
                Ok(b) => self.verts().contains(*a) && b == self.spec_is_sink(*a),
                Err(e) => !self.verts().contains(*a) && e is VertexError,
            },
    {
        if self.vertices.contains(*a) {
            let has_out = self.outbound.contains_key(*a);
            proof {
                if has_out {
                    let v = choose|v: usize| self.outbound@[*a].contains(v);
                    assert(self.has_edge(*a, v));
                }
            }
            Ok(!has_out)
        } else {
            Err(GraphError::VertexError("vertex not found in graph".to_string()))
        }
    }

    /// The vertices with no inbound edge.
    pub fn sources(&self) -> (r: VertexSet)
        requires
            self.wf(),
        ensures
            r.wf(),
            r@ == Set::new(|v: usize| self.verts().contains(v) && self.spec_is_source(v)),
    {
        let mut s = VertexSet::new();
        let mut i: usize = 0;
        while i < self.vertices.items.len()
            invariant
                self.wf(),
                s.wf(),
                i <= self.vertices.items.len(),
                s@ == Set::new(
                    |v: usize| self.vertices.items@.take(i as int).to_set().contains(v)
                        && self.spec_is_source(v),
                ),
            decreases self.vertices.items.len() - i,
        {
            let v = self.vertices.items[i];
            if !self.inbound.contains_key(v) {
                s.insert(v);
            }
            proof {
                broadcast use vstd::seq_lib::lemma_seq_contains_after_push;

                if self.inbound@.contains_key(v) {
                    let u = choose|u: usize| self.inbound@[v].contains(u);
                    assert(self.has_edge(u, v));
                }
                assert(self.vertices.items@.take(i + 1) == self.vertices.items@.take(
                    i as int,
                ).push(self.vertices.items@[i as int]));
                assert(s@ =~= Set::new(
                    |v2: usize| self.vertices.items@.take(i + 1).to_set().contains(v2)
                        && self.spec_is_source(v2),
                ));
            }
            i = i + 1;
        }
        proof {
            assert(self.vertices.items@.take(self.vertices.items@.len() as int)
                == self.vertices.items@);
            assert(s@ =~= Set::new(
                |v: usize| self.verts().contains(v) && self.spec_is_source(v),
            ));
        }
        s
    }

    /// The vertices with no outbound edge.
    pub fn sinks(&self) -> (r: VertexSet)
        requires
            self.wf(),
        ensures
            r.wf(),
            r@ == Set::new(|v: usize| self.verts().contains(v) && self.spec_is_sink(v)),
    {
        let mut s = VertexSet::new();
        let mut i: usize = 0;
        while i < self.vertices.items.len()
            invariant
                self.wf(),
                s.wf(),
                i <= self.vertices.items.len(),
                s@ == Set::new(
                    |v: usize| self.vertices.items@.take(i as int).to_set().contains(v)
                        && self.spec_is_sink(v),
                ),
            decreases self.vertices.items.len() - i,
        {
            let v = self.vertices.items[i];
            if !self.outbound.contains_key(v) {
                s.insert(v);
            }
            proof {
                broadcast use vstd::seq_lib::lemma_seq_contains_after_push;

                if self.outbound@.contains_key(v) {
                    let w = choose|w: usize| self.outbound@[v].contains(w);
                    assert(self.has_edge(v, w));
                }
                assert(self.vertices.items@.take(i + 1) == self.vertices.items@.take(
                    i as int,
                ).push(self.vertices.items@[i as int]));
                assert(s@ =~= Set::new(
                    |v2: usize| self.vertices.items@.take(i + 1).to_set().contains(v2)
                        && self.spec_is_sink(v2),
                ));
            }
            i = i + 1;
        }
        proof {
            assert(self.vertices.items@.take(self.vertices.items@.len() as int)
                == self.vertices.items@);
            assert(s@ =~= Set::new(|v: usize| self.verts().contains(v) && self.spec_is_sink(v)));
        }
        s
    }

    /// The single outbound neighbour of `a`, if any; an error when `a` is
    /// missing or has two or more outbound edges. This treats the graph as a
    /// forest whose edges point from child to parent.
    pub fn parent(&self, a: &usize) -> (r: Result<Option<usize>, GraphError>)
        requires
            self.wf(),
        ensures
            match r {
                Ok(p) => self.verts().contains(*a) && match p {
                    Some(v) => self.has_edge(*a, v) && forall|v2: usize|
                        self.has_edge(*a, v2) ==> v2 == v,
                    None => self.spec_is_sink(*a),
                },
                Err(e) => e is VertexError && (!self.verts().contains(*a) || exists|
                    v1: usize,
                    v2: usize,
                |
                    v1 != v2 && #[trigger] self.has_edge(*a, v1) && #[trigger] self.has_edge(
                        *a,
                        v2,
                    )),
            },
    {
        if self.vertices.contains(*a) {
            match self.outbound.get(*a) {
                None => {
                    proof {
                        assert forall|v: usize| !self.has_edge(*a, v) by {}
                    }
                    Ok(None)
                },
                Some(s) => {
                    if s.items.len() == 1 {
                        proof {
                            assert(s.items@.contains(s.items@[0]));
                            assert forall|v2: usize| self.has_edge(*a, v2) implies v2
                                == s.items@[0] by {
                                assert(s@.contains(v2));
                                assert(s.items@.contains(v2));
                            }
                        }
                        Ok(Some(s.items[0]))
                    } else {
                        proof {
                            let w = choose|w: usize| self.outbound@[*a].contains(w);
                            assert(s@.contains(w));
                            assert(s.items@.contains(w));
                            assert(s.items@.len() >= 1);
                            assert(s.items@.len() >= 2);
                            assert(s.items@[0] != s.items@[1]);
                            assert(s@.contains(s.items@[0]) && s@.contains(s.items@[1]));
                            assert(self.has_edge(*a, s.items@[0]) && self.has_edge(
                                *a,
                                s.items@[1],
                            ));
                        }
                        Err(GraphError::VertexError("vertex has more than one parent".to_string()))
                    }
                },
            }
        } else {
            Err(GraphError::VertexError("vertex not found in graph".to_string()))
        }
    }
}

impl Graph {

    /// Removing one edge and pruning both index entries restores
    /// well-formedness.
    #[verifier::spinoff_prover]
    pub(crate) proof fn lemma_wf_after_remove_edge(pre: &Graph, post: &Graph, a0: usize, b0: usize)
        requires
            pre.wf(),
            pre.has_edge(a0, b0),
            post.vertices == pre.vertices,
            post.edges.wf(),
            post.inbound.wf(),
            post.outbound.wf(),
            post.edges@ == pre.edges@.remove((a0, b0)),
            post.inbound@ == (if pre.inbound@[b0].remove(a0).is_empty() {
                pre.inbound@.remove(b0)
            } else {
                pre.inbound@.insert(b0, pre.inbound@[b0].remove(a0))
            }),
            post.outbound@ == (if pre.outbound@[a0].remove(b0).is_empty() {
                pre.outbound@.remove(a0)
            } else {
                pre.outbound@.insert(a0, pre.outbound@[a0].remove(b0))
            }),
        ensures
            post.wf(),
    {
        assert forall|e: (usize, usize)| #[trigger]
            post.edges@.contains_key(e) implies post.vertices@.contains(e.0)
            && post.vertices@.contains(e.1) by {
            assert(pre.edges@.contains_key(e));
        }
        lemma_prune_out(pre.edges@, pre.outbound@, a0, b0);
        lemma_prune_in(pre.edges@, pre.inbound@, a0, b0);
    }

    /// Removes the edge `(a, b)`. Both endpoints must be vertices; removing
    /// an absent edge reports an edge error and leaves the graph unchanged.
    #[verifier::spinoff_prover]
    pub fn remove_edge_raw(&mut self, a: &usize, b: &usize) -> (r: Result<(), GraphError>)
        requires
            old(self).wf(),
        ensures
            final(self).wf(),
            final(self).verts() == old(self).verts(),
            final(self).spec_name() == old(self).spec_name(),
            match r {
                Ok(()) => old(self).verts().contains(*a) && old(self).verts().contains(*b)
                    && old(self).has_edge(*a, *b) && final(self).edge_map() == old(
                    self,
                ).edge_map().remove((*a, *b)),
                Err(e) => final(self).edge_map() == old(self).edge_map() && (if !(old(
                    self,
                ).verts().contains(*a) && old(self).verts().contains(*b)) {
                    e is VertexError
                } else {
                    e is EdgeError && !old(self).has_edge(*a, *b)
                }),
            },
    {
        let a0 = *a;
        let b0 = *b;
        if self.vertices.contains(a0) && self.vertices.contains(b0) {
            if self.edges.contains_key(a0, b0) {
                self.edges.remove(a0, b0);
                proof {
                    assert(old(self).inbound@.contains_key(b0) && old(self).inbound@[b0].contains(
                        a0,
                    ));
                    assert(old(self).outbound@.contains_key(a0) && old(self).outbound@[a0].contains(
                        b0,
                    ));
                }
                self.inbound.remove_member_prune(b0, a0);
                self.outbound.remove_member_prune(a0, b0);
                proof {
                    Graph::lemma_wf_after_remove_edge(old(self), self, a0, b0);
                }
                Ok(())
            } else {
                Err(GraphError::EdgeError("edge not found in graph".to_string()))
            }
        } else {
            Err(GraphError::VertexError("vertex not found in graph".to_string()))
        }
    }

    /// Removes every edge out of `a0`. Internal helper for vertex removal.
    #[verifier::spinoff_prover]
    #[verifier::rlimit(100)]
    pub(crate) fn strip_outbound(&mut self, a0: usize)
        requires
            old(self).wf(),
            old(self).verts().contains(a0),
        ensures
            final(self).wf(),
            final(self).verts() == old(self).verts(),
            final(self).spec_name() == old(self).spec_name(),
            final(self).edge_map() == Map::<(usize, usize), i64>::new(
                |e: (usize, usize)| old(self).edge_map().contains_key(e) && e.0 != a0,
                |e: (usize, usize)| old(self).edge_map()[e],
            ),
    {
        let os = match self.outbound.get(a0) {
            Some(v) => v.clone(),
            None => VertexSet::new(),
        };
        proof {
            assert(os@ =~= self.spec_outbound_of(a0));
        }
        let ghost m0 = self.edge_map();
        let mut i: usize = 0;
        while i < os.items.len()
            invariant
                self.wf(),
                os.wf(),
                i <= os.items.len(),
                self.verts() == old(self).verts(),
                self.spec_name() == old(self).spec_name(),
                old(self).verts().contains(a0),
                os@ == Set::new(|v: usize| m0.contains_key((a0, v))),
                m0 == old(self).edge_map(),
                self.edge_map() == Map::<(usize, usize), i64>::new(
                    |e: (usize, usize)|
                        m0.contains_key(e) && !(e.0 == a0 && os.items@.take(
                            i as int,
                        ).to_set().contains(e.1)),
                    |e: (usize, usize)| m0[e],
                ),
            decreases os.items.len() - i,
        {
            let v = os.items[i];
            proof {
                assert(os.items@.contains(v));
                assert(os@.contains(v));
                assert(m0.contains_key((a0, v)));
                assert(!os.items@.take(i as int).to_set().contains(v));
                assert(self.has_edge(a0, v));
                assert(self.verts().contains(a0) && self.verts().contains(v));
            }
            let ghost prev = self.edge_map();
            let rr = self.remove_edge_raw(&a0, &v);
            proof {
                lemma_map_strip_step_out(m0, os.items@, i as int, a0);
                assert(self.edge_map() == prev.remove((a0, v)));
            }
            i = i + 1;
        }
        proof {
            assert(os.items@.take(os.items@.len() as int) == os.items@);
            assert(self.edge_map() =~= Map::<(usize, usize), i64>::new(
                |e: (usize, usize)| m0.contains_key(e) && e.0 != a0,
                |e: (usize, usize)| m0[e],
            ));
        }
    }

    /// Removes every edge into `a0`. Internal helper for vertex removal.
    #[verifier::spinoff_prover]
    #[verifier::rlimit(100)]
    fn strip_inbound(&mut self, a0: usize)
        requires
            old(self).wf(),
            old(self).verts().contains(a0),
        ensures
            final(self).wf(),
            final(self).verts() == old(self).verts(),
            final(self).spec_name() == old(self).spec_name(),
            final(self).edge_map() == Map::<(usize, usize), i64>::new(
                |e: (usize, usize)| old(self).edge_map().contains_key(e) && e.1 != a0,
                |e: (usize, usize)| old(self).edge_map()[e],
            ),
    {
        let ins = match self.inbound.get(a0) {
            Some(v) => v.clone(),
            None => VertexSet::new(),
        };
        proof {
            assert(ins@ =~= self.spec_inbound_of(a0));
        }
        let ghost m0 = self.edge_map();
        let mut j: usize = 0;
        while j < ins.items.len()
            invariant
                self.wf(),
                ins.wf(),
                j <= ins.items.len(),
                self.verts() == old(self).verts(),
                self.spec_name() == old(self).spec_name(),
                old(self).verts().contains(a0),
                ins@ == Set::new(|u: usize| m0.contains_key((u, a0))),
                m0 == old(self).edge_map(),
                self.edge_map() == Map::<(usize, usize), i64>::new(
                    |e: (usize, usize)|
                        m0.contains_key(e) && !(e.1 == a0 && ins.items@.take(
                            j as int,
                        ).to_set().contains(e.0)),
                    |e: (usize, usize)| m0[e],
                ),
            decreases ins.items.len() - j,
        {
            let u = ins.items[j];
            proof {
                assert(ins.items@.contains(u));
                assert(ins@.contains(u));
                assert(m0.contains_key((u, a0)));
                assert(!ins.items@.take(j as int).to_set().contains(u));
                assert(self.has_edge(u, a0));
                assert(self.verts().contains(u) && self.verts().contains(a0));
            }
            let ghost prev = self.edge_map();
            let rr = self.remove_edge_raw(&u, &a0);
            proof {
                lemma_map_strip_step_in(m0, ins.items@, j as int, a0);
                assert(self.edge_map() == prev.remove((u, a0)));
            }
            j = j + 1;
        }
        proof {
            assert(ins.items@.take(ins.items@.len() as int) == ins.items@);
            assert(self.edge_map() =~= Map::<(usize, usize), i64>::new(
                |e: (usize, usize)| m0.contains_key(e) && e.1 != a0,
                |e: (usize, usize)| m0[e],
            ));
        }
    }

    /// Removes `a` and every edge incident to it; an error when `a` is not a
    /// vertex.
    #[verifier::spinoff_prover]
    pub fn remove_vertex_raw(&mut self, a: &usize) -> (r: Result<(), GraphError>)
        requires
            old(self).wf(),
        ensures
            final(self).wf(),
            final(self).spec_name() == old(self).spec_name(),
            match r {
                Ok(()) => old(self).verts().contains(*a) && final(self).verts() == old(
                    self,
                ).verts().remove(*a) && final(self).edge_map() == Map::<(usize, usize), i64>::new(
                    |e: (usize, usize)|
                        old(self).edge_map().contains_key(e) && e.0 != *a && e.1 != *a,
                    |e: (usize, usize)| old(self).edge_map()[e],
                ),
                Err(e) => e is VertexError && !old(self).verts().contains(*a) && final(self).verts()
                    == old(self).verts() && final(self).edge_map() == old(self).edge_map(),
            },
    {
        let a0 = *a;
        if !self.vertices.contains(a0) {
            return Err(GraphError::VertexError("vertex not found in graph".to_string()));
        }
        self.strip_outbound(a0);
        self.strip_inbound(a0);
        proof {
            assert(self.edge_map() =~= Map::<(usize, usize), i64>::new(
                |e: (usize, usize)|
                    old(self).edge_map().contains_key(e) && e.0 != a0 && e.1 != a0,
                |e: (usize, usize)| old(self).edge_map()[e],
            ));
        }
        let ghost pre = *self;
        self.vertices.remove(a0);
        proof {
            assert forall|e: (usize, usize)| #[trigger]
                self.edges@.contains_key(e) implies self.vertices@.contains(e.0)
                && self.vertices@.contains(e.1) by {
                assert(pre.edges@.contains_key(e));
                assert(e.0 != a0 && e.1 != a0);
                assert(pre.vertices@.contains(e.0) && pre.vertices@.contains(e.1));
            }
            if self.inbound@.contains_key(a0) {
                let u = choose|u: usize| self.inbound@[a0].contains(u);
                assert(self.has_edge(u, a0));
            }
            if self.outbound@.contains_key(a0) {
                let v = choose|v: usize| self.outbound@[a0].contains(v);
                assert(self.has_edge(a0, v));
            }
        }
        self.inbound.remove_key(a0);
        self.outbound.remove_key(a0);
        proof {
            assert(self.inbound@ =~= pre.inbound@);
            assert(self.outbound@ =~= pre.outbound@);
        }
        Ok(())
    }
}

/// One step of stripping the outbound edges of `a0`: removing the edge to the
/// next listed neighbour extends the removed set by that neighbour.
pub(crate) proof fn lemma_map_strip_step_out(
    m0: Map<(usize, usize), i64>,
    items: Seq<usize>,
    i: int,
    a0: usize,
)
    requires
        0 <= i < items.len(),
    ensures
        Map::<(usize, usize), i64>::new(
            |e: (usize, usize)|
                m0.contains_key(e) && !(e.0 == a0 && items.take(i).to_set().contains(e.1)),
            |e: (usize, usize)| m0[e],
        ).remove((a0, items[i])) =~= Map::<(usize, usize), i64>::new(
            |e: (usize, usize)|
                m0.contains_key(e) && !(e.0 == a0 && items.take(i + 1).to_set().contains(e.1)),
            |e: (usize, usize)| m0[e],
        ),
{
    broadcast use vstd::seq_lib::lemma_seq_contains_after_push;

    assert(items.take(i + 1) == items.take(i).push(items[i]));
}

/// One step of stripping the inbound edges of `a0`.
pub(crate) proof fn lemma_map_strip_step_in(
    m0: Map<(usize, usize), i64>,
    items: Seq<usize>,
    j: int,
    a0: usize,
)
    requires
        0 <= j < items.len(),
    ensures
        Map::<(usize, usize), i64>::new(
            |e: (usize, usize)|
                m0.contains_key(e) && !(e.1 == a0 && items.take(j).to_set().contains(e.0)),
            |e: (usize, usize)| m0[e],
        ).remove((items[j], a0)) =~= Map::<(usize, usize), i64>::new(
            |e: (usize, usize)|
                m0.contains_key(e) && !(e.1 == a0 && items.take(j + 1).to_set().contains(e.0)),
            |e: (usize, usize)| m0[e],
        ),
{
    broadcast use vstd::seq_lib::lemma_seq_contains_after_push;

    assert(items.take(j + 1) == items.take(j).push(items[j]));
}

impl Graph {
    /// A graph stays well-formed when the views of all components are
    /// unchanged and the replacement components are themselves well-formed.
    pub(crate) proof fn lemma_wf_same_views(pre: &Graph, post: &Graph)
        requires
            pre.wf(),
            post.vertices.wf(),
            post.edges.wf(),
            post.inbound.wf(),
            post.outbound.wf(),
            post.vertices@ == pre.vertices@,
            post.edges@ == pre.edges@,
            post.inbound@ == pre.inbound@,
            post.outbound@ == pre.outbound@,
        ensures
            post.wf(),
    {
        assert(wf_closed(post.vertices@, post.edges@) == wf_closed(pre.vertices@, pre.edges@));
        assert(wf_links(post.edges@, post.inbound@, post.outbound@) == wf_links(
            pre.edges@,
            pre.inbound@,
            pre.outbound@,
        ));
    }

    /// Deletes every vertex outside `keep`, with all incident edges.
    #[verifier::spinoff_prover]
    #[verifier::rlimit(100)]
    pub fn retain(&mut self, keep: &VertexSet) -> (r: Result<(), GraphError>)
        requires
            old(self).wf(),
        ensures
            final(self).wf(),
            r.is_ok(),
            final(self).spec_name() == old(self).spec_name(),
            final(self).verts() == old(self).verts().intersect(keep@),
            final(self).edge_map() == Map::<(usize, usize), i64>::new(
                |e: (usize, usize)|
                    old(self).edge_map().contains_key(e) && keep@.contains(e.0) && keep@.contains(
                        e.1,
                    ),
                |e: (usize, usize)| old(self).edge_map()[e],
            ),
    {
        let mut del: Vec<usize> = Vec::new();
        let mut i: usize = 0;
        while i < self.vertices.items.len()
            invariant
                self.wf(),
                i <= self.vertices.items.len(),
                del@.no_duplicates(),
                forall|j: int| 0 <= j < del@.len() ==> self.verts().contains(#[trigger] del@[j]),
                del@.to_set() == Set::new(
                    |v: usize| self.vertices.items@.take(i as int).to_set().contains(v)
                        && !keep@.contains(v),
                ),
            decreases self.vertices.items.len() - i,
        {
            let v = self.vertices.items[i];
            let ghost del0 = del@;
            proof {
                assert(self.vertices.items@.contains(v));
            }
            if !keep.contains(v) {
                proof {
                    if del@.contains(v) {
                        assert(del@.to_set().contains(v));
                        assert(self.vertices.items@.take(i as int).to_set().contains(v));
                        let j = choose|j: int|
                            0 <= j < i && self.vertices.items@.take(i as int)[j] == v;
                        assert(self.vertices.items@[j] == self.vertices.items@[i as int]);
                    }
                    crate::store::lemma_seq_push_no_duplicates(del@, v);
                }
                del.push(v);
                proof {
                    broadcast use vstd::seq_lib::lemma_seq_contains_after_push;

                    assert(del@ == del0.push(v));
                    assert(self.vertices.items@.take(i + 1) == self.vertices.items@.take(
                        i as int,
                    ).push(self.vertices.items@[i as int]));
                    assert forall|v2: usize|
                        #![trigger del@.to_set().contains(v2)]
                        #![trigger self.vertices.items@.take(i + 1).to_set().contains(v2)]
                        del@.to_set().contains(v2) == (self.vertices.items@.take(
                        i + 1,
                    ).to_set().contains(v2) && !keep@.contains(v2)) by {
                        assert(del@.contains(v2) <==> del0.contains(v2) || v2 == v);
                        assert(self.vertices.items@.take(i + 1).contains(v2)
                            <==> self.vertices.items@.take(i as int).contains(v2) || v2 == v);
                        assert(del0.to_set().contains(v2) == (self.vertices.items@.take(
                            i as int,
                        ).to_set().contains(v2) && !keep@.contains(v2)));
                    }
                    assert(del@.to_set() =~= Set::new(
                        |v2: usize| self.vertices.items@.take(i + 1).to_set().contains(v2)
                            && !keep@.contains(v2),
                    ));
                }
            } else {
                proof {
                    broadcast use vstd::seq_lib::lemma_seq_contains_after_push;

                    assert(self.vertices.items@.take(i + 1) == self.vertices.items@.take(
                        i as int,
                    ).push(self.vertices.items@[i as int]));
                    assert forall|v2: usize|
                        #![trigger del@.to_set().contains(v2)]
                        #![trigger self.vertices.items@.take(i + 1).to_set().contains(v2)]
                        del@.to_set().contains(v2) == (self.vertices.items@.take(
                        i + 1,
                    ).to_set().contains(v2) && !keep@.contains(v2)) by {
                        assert(self.vertices.items@.take(i + 1).contains(v2)
                            <==> self.vertices.items@.take(i as int).contains(v2) || v2 == v);
                        assert(del0.to_set().contains(v2) == (self.vertices.items@.take(
                            i as int,
                        ).to_set().contains(v2) && !keep@.contains(v2)));
                    }
                    assert(del@.to_set() =~= Set::new(
                        |v2: usize| self.vertices.items@.take(i + 1).to_set().contains(v2)
                            && !keep@.contains(v2),
                    ));
                }
            }
            i = i + 1;
        }
        proof {
            assert(self.vertices.items@.take(self.vertices.items@.len() as int)
                == self.vertices.items@);
            assert(del@.to_set() =~= self.verts().difference(keep@));
        }
        let ghost g0 = *self;
        let mut k: usize = 0;
        while k < del.len()
            invariant
                self.wf(),
                k <= del@.len(),
                del@.no_duplicates(),
                g0.wf(),
                del@.to_set() == g0.verts().difference(keep@),
                forall|j: int| 0 <= j < del@.len() ==> g0.verts().contains(#[trigger] del@[j]),
                self.spec_name() == g0.spec_name(),
                self.verts() == g0.verts().difference(del@.take(k as int).to_set()),
                self.edge_map() == Map::<(usize, usize), i64>::new(
                    |e: (usize, usize)|
                        g0.edge_map().contains_key(e) && !del@.take(k as int).to_set().contains(
                            e.0,
                        ) && !del@.take(k as int).to_set().contains(e.1),
                    |e: (usize, usize)| g0.edge_map()[e],
                ),
            decreases del@.len() - k,
        {
            let v = del[k];
            proof {
                assert(del@[k as int] == v);
                assert(del@.contains(v));
                assert(!del@.take(k as int).to_set().contains(v)) by {
                    if del@.take(k as int).to_set().contains(v) {
                        let j = choose|j: int| 0 <= j < k && del@.take(k as int)[j] == v;
                        assert(del@[j] == del@[k as int]);
                    }
                }
                assert(self.verts().contains(v));
            }
            let ghost prev = *self;
            let rr = self.remove_vertex_raw(&v);
            proof {
                broadcast use vstd::seq_lib::lemma_seq_contains_after_push;

                assert(del@.take(k + 1) == del@.take(k as int).push(del@[k as int]));
                assert(self.verts() =~= g0.verts().difference(del@.take(k + 1).to_set()));
                assert(self.edge_map() =~= Map::<(usize, usize), i64>::new(
                    |e: (usize, usize)|
                        g0.edge_map().contains_key(e) && !del@.take(k + 1).to_set().contains(e.0)
                            && !del@.take(k + 1).to_set().contains(e.1),
                    |e: (usize, usize)| g0.edge_map()[e],
                ));
            }
            k = k + 1;
        }
        proof {
            assert(del@.take(del@.len() as int) == del@);
            assert(self.verts() =~= old(self).verts().intersect(keep@));
            assert forall|e: (usize, usize)|
                g0.edge_map().contains_key(e) implies g0.verts().contains(e.0)
                && g0.verts().contains(e.1) by {}
            assert(self.edge_map() =~= Map::<(usize, usize), i64>::new(
                |e: (usize, usize)|
                    old(self).edge_map().contains_key(e) && keep@.contains(e.0) && keep@.contains(
                        e.1,
                    ),
                |e: (usize, usize)| old(self).edge_map()[e],
            ));
        }
        Ok(())
    }

    /// Deletes every edge outside `keep`, leaving vertices untouched.
    #[verifier::spinoff_prover]
    #[verifier::rlimit(100)]
    pub fn retain_edges(&mut self, keep: &EdgeSet) -> (r: Result<(), GraphError>)
        requires
            old(self).wf(),
        ensures
            final(self).wf(),
            r.is_ok(),
            final(self).spec_name() == old(self).spec_name(),
            final(self).verts() == old(self).verts(),
            final(self).edge_map() == Map::<(usize, usize), i64>::new(
                |e: (usize, usize)| old(self).edge_map().contains_key(e) && keep@.contains(e),
                |e: (usize, usize)| old(self).edge_map()[e],
            ),
    {
        let mut del: Vec<(usize, usize)> = Vec::new();
        let mut i: usize = 0;
        while i < self.edges.entries.len()
            invariant
                self.wf(),
                i <= self.edges.entries.len(),
                del@.no_duplicates(),
                forall|j: int|
                    0 <= j < del@.len() ==> self.edge_map().contains_key(#[trigger] del@[j]),
                del@.to_set() == Set::new(
                    |e: (usize, usize)| self.edges.key_seq().take(i as int).to_set().contains(e)
                        && !keep@.contains(e),
                ),
            decreases self.edges.entries.len() - i,
        {
            let e = self.edges.entries[i].0;
            proof {
                assert(self.edges.key_seq()[i as int] == e);
                assert(self.edges.key_seq().contains(e));
                self.edges.lemma_entry(i as int);
            }
            let ghost del0 = del@;
            if !keep.contains(e.0, e.1) {
                proof {
                    if del@.contains(e) {
                        assert(del@.to_set().contains(e));
                        assert(self.edges.key_seq().take(i as int).to_set().contains(e));
                        let j = choose|j: int|
                            0 <= j < i && self.edges.key_seq().take(i as int)[j] == e;
                        assert(self.edges.key_seq()[j] == self.edges.key_seq()[i as int]);
                    }
                    crate::store::lemma_seq_push_no_duplicates(del@, e);
                }
                del.push(e);
                proof {
                    broadcast use vstd::seq_lib::lemma_seq_contains_after_push;

                    assert(del@ == del0.push(e));
                    assert(self.edges.key_seq().take(i + 1) == self.edges.key_seq().take(
                        i as int,
                    ).push(self.edges.key_seq()[i as int]));
                    assert forall|e2: (usize, usize)|
                        #![trigger del@.to_set().contains(e2)]
                        #![trigger self.edges.key_seq().take(i + 1).to_set().contains(e2)]
                        del@.to_set().contains(e2) == (self.edges.key_seq().take(
                        i + 1,
                    ).to_set().contains(e2) && !keep@.contains(e2)) by {
                        assert(del@.contains(e2) <==> del0.contains(e2) || e2 == e);
                        assert(self.edges.key_seq().take(i + 1).contains(e2)
                            <==> self.edges.key_seq().take(i as int).contains(e2) || e2 == e);
                        assert(del0.to_set().contains(e2) == (self.edges.key_seq().take(
                            i as int,
                        ).to_set().contains(e2) && !keep@.contains(e2)));
                    }
                    assert(del@.to_set() =~= Set::new(
                        |e2: (usize, usize)| self.edges.key_seq().take(i + 1).to_set().contains(e2)
                            && !keep@.contains(e2),
                    ));
                }
            } else {
                proof {
                    broadcast use vstd::seq_lib::lemma_seq_contains_after_push;

                    assert(self.edges.key_seq().take(i + 1) == self.edges.key_seq().take(
                        i as int,
                    ).push(self.edges.key_seq()[i as int]));
                    assert forall|e2: (usize, usize)|
                        #![trigger del@.to_set().contains(e2)]
                        #![trigger self.edges.key_seq().take(i + 1).to_set().contains(e2)]
                        del@.to_set().contains(e2) == (self.edges.key_seq().take(
                        i + 1,
                    ).to_set().contains(e2) && !keep@.contains(e2)) by {
                        assert(self.edges.key_seq().take(i + 1).contains(e2)
                            <==> self.edges.key_seq().take(i as int).contains(e2) || e2 == e);
                        assert(del0.to_set().contains(e2) == (self.edges.key_seq().take(
                            i as int,
                        ).to_set().contains(e2) && !keep@.contains(e2)));
                    }
                    assert(del@.to_set() =~= Set::new(
                        |e2: (usize, usize)| self.edges.key_seq().take(i + 1).to_set().contains(e2)
                            && !keep@.contains(e2),
                    ));
                }
            }
            i = i + 1;
        }
        proof {
            assert(self.edges.key_seq().take(self.edges.key_seq().len() as int)
                == self.edges.key_seq());
            self.edges.lemma_dom();
            assert(del@.to_set() =~= self.edge_map().dom().difference(keep@));
        }
        let ghost g0 = *self;
        let mut k: usize = 0;
        while k < del.len()
            invariant
                self.wf(),
                k <= del@.len(),
                del@.no_duplicates(),
                g0.wf(),
                del@.to_set() == g0.edge_map().dom().difference(keep@),
                forall|j: int|
                    0 <= j < del@.len() ==> g0.edge_map().contains_key(#[trigger] del@[j]),
                self.spec_name() == g0.spec_name(),
                self.verts() == g0.verts(),
                self.edge_map() == Map::<(usize, usize), i64>::new(
                    |e: (usize, usize)|
                        g0.edge_map().contains_key(e) && !del@.take(k as int).to_set().contains(e),
                    |e: (usize, usize)| g0.edge_map()[e],
                ),
            decreases del@.len() - k,
        {
            let e = del[k];
            proof {
                assert(del@[k as int] == e);
                assert(del@.contains(e));
                assert(!del@.take(k as int).to_set().contains(e)) by {
                    if del@.take(k as int).to_set().contains(e) {
                        let j = choose|j: int| 0 <= j < k && del@.take(k as int)[j] == e;
                        assert(del@[j] == del@[k as int]);
                    }
                }
                assert(self.edge_map().contains_key(e));
                assert(g0.verts().contains(e.0) && g0.verts().contains(e.1));
            }
            let rr = self.remove_edge_raw(&e.0, &e.1);
            proof {
                broadcast use vstd::seq_lib::lemma_seq_contains_after_push;

                assert(del@.take(k + 1) == del@.take(k as int).push(del@[k as int]));
                assert(self.edge_map() =~= Map::<(usize, usize), i64>::new(
                    |e2: (usize, usize)|
                        g0.edge_map().contains_key(e2) && !del@.take(k + 1).to_set().contains(e2),
                    |e2: (usize, usize)| g0.edge_map()[e2],
                ));
            }
            k = k + 1;
        }
        proof {
            assert(del@.take(del@.len() as int) == del@);
            assert(self.edge_map() =~= Map::<(usize, usize), i64>::new(
                |e: (usize, usize)| old(self).edge_map().contains_key(e) && keep@.contains(e),
                |e: (usize, usize)| old(self).edge_map()[e],
            ));
        }
        Ok(())
    }
}

impl Clone for Graph {
    fn clone(&self) -> (r: Self)
        ensures
            r.spec_name() == self.spec_name(),
            self.wf() ==> r.wf() && r.verts() == self.verts() && r.edge_map() == self.edge_map(),
    {
        let r = Graph {
            name: self.name.clone(),
            vertices: self.vertices.clone(),
            edges: self.edges.clone(),
            inbound: self.inbound.clone(),
            outbound: self.outbound.clone(),
        };
        proof {
            if self.wf() {
                Graph::lemma_wf_same_views(self, &r);
            }
        }
        r
    }
}

} // verus!
