//! The undirected graph structure: edges live under a canonical key, with a
//! single symmetric adjacency index.

use crate::error::GraphError;
use crate::store::AdjMap;
use crate::store::EdgeMap;
use crate::store::VertexSet;
use vstd::prelude::*;

verus! {

/// The canonical storage key of an undirected edge: smaller endpoint first.
pub open(crate) spec fn canon(u: usize, v: usize) -> (usize, usize) {
    if u < v {
        (u, v)
    } else {
        (v, u)
    }
}

/// The symmetric adjacency index mirrors the canonical edge map, and an index
/// entry is present only while it has at least one member.
pub open(crate) spec fn wf_ulinks(
    em: Map<(usize, usize), i64>,
    conn: Map<usize, Set<usize>>,
) -> bool {
    &&& forall|u: usize, v: usize|
        #[trigger] conn[u].contains(v) ==> conn.contains_key(u) ==> (em.contains_key((u, v))
            || em.contains_key((v, u)))
    &&& forall|u: usize, v: usize| #[trigger]
        em.dom().contains((u, v)) ==> conn.contains_key(u) && conn[u].contains(v)
            && conn.contains_key(v) && conn[v].contains(u)
    &&& forall|u: usize|
        #[trigger] conn.contains_key(u) ==> exists|v: usize| conn[u].contains(v)
}


/// A mutable undirected graph.
///
/// An edge between `u` and `v` is stored once, under the key
/// `(min(u, v), max(u, v))`; the `connected` index holds, for every vertex
/// with at least one incident edge, the set of its neighbours.
pub struct UGraph {
    pub(crate) name: String,
    pub(crate) vertices: VertexSet,
    pub(crate) edges: EdgeMap,
    pub(crate) connected: AdjMap,
}

impl UGraph {
    /// The set of vertices.
    pub open(crate) spec fn verts(&self) -> Set<usize> {
        self.vertices@
    }

    /// The canonical weighted edge relation.
    pub open(crate) spec fn edge_map(&self) -> Map<(usize, usize), i64> {
        self.edges@
    }

    /// Whether an edge joins `u` and `v`, in either orientation.
    pub open(crate) spec fn has_edge(&self, u: usize, v: usize) -> bool {
        self.edge_map().contains_key(canon(u, v))
    }

    /// The graph's name, as a sequence of characters.
    pub open(crate) spec fn spec_name(&self) -> Seq<char> {
        self.name@
    }

    /// The neighbours of `a`.
    pub open(crate) spec fn spec_neighbours_of(&self, a: usize) -> Set<usize> {
        Set::new(|v: usize| self.has_edge(a, v))
    }

    /// Edge keys are canonical, endpoints are vertices, and the symmetric
    /// index mirrors the edge map with empty entries pruned.
    pub open(crate) spec fn wf(&self) -> bool {
        &&& self.vertices.wf()
        &&& self.edges.wf()
        &&& self.connected.wf()
        &&& crate::graph::wf_closed(self.vertices@, self.edges@)
        &&& forall|e: (usize, usize)| #[trigger] self.edges@.contains_key(e) ==> e.0 <= e.1
        &&& wf_ulinks(self.edges@, self.connected@)
    }

    pub fn new() -> (r: UGraph)
        ensures
            r.wf(),
            r.verts() == Set::<usize>::empty(),
            r.edge_map() == Map::<(usize, usize), i64>::empty(),
            r.spec_name() == Seq::<char>::empty(),
    {
        let r = UGraph {
            name: "".to_string(),
            vertices: VertexSet::new(),
            edges: EdgeMap::new(),
            connected: AdjMap::new(),
        };
        proof {
            reveal_strlit("");
            assert(r.spec_name() =~= Seq::<char>::empty());
        }
        r
    }

    pub fn new_with_name(name: &str) -> (r: UGraph)
        ensures
            r.wf(),
            r.verts() == Set::<usize>::empty(),
            r.edge_map() == Map::<(usize, usize), i64>::empty(),
            r.spec_name() == name@,
    {
        UGraph {
            name: name.to_string(),
            vertices: VertexSet::new(),
            edges: EdgeMap::new(),
            connected: AdjMap::new(),
        }
    }

    /// Inserts both endpoints and upserts the edge weight under the canonical
    /// key; never fails.
    #[verifier::spinoff_prover]
    pub fn add_edge_raw(&mut self, a: usize, b: usize, weight: i64) -> (r: Result<
        (),
        GraphError,
    >)
        requires
            old(self).wf(),
        ensures
            final(self).wf(),
            r.is_ok(),
            final(self).verts() == old(self).verts().insert(a).insert(b),
            final(self).edge_map() == old(self).edge_map().insert(canon(a, b), weight),
            final(self).spec_name() == old(self).spec_name(),
    {
        self.vertices.insert(a);
        self.vertices.insert(b);
        if a < b {
            self.edges.insert(a, b, weight);
        } else {
            self.edges.insert(b, a, weight);
        }
        self.connected.add_member(b, a);
        self.connected.add_member(a, b);
        proof {
            let mid = old(self).connected@.insert(
                b,
                (if old(self).connected@.contains_key(b) {
                    old(self).connected@[b]
                } else {
                    Set::<usize>::empty()
                }).insert(a),
            );
            assert forall|u: usize, v: usize|
                #![trigger self.connected@[u].contains(v)]
                #![trigger self.edges@.contains_key((u, v))]
                (self.connected@.contains_key(u) && self.connected@[u].contains(v)) <==> (
                self.edges@.contains_key((u, v)) || self.edges@.contains_key((v, u))) by {
                assert((old(self).connected@.contains_key(u) && old(self).connected@[u].contains(
                    v,
                )) <==> (old(self).edges@.contains_key((u, v)) || old(self).edges@.contains_key(
                    (v, u),
                )));
                if u == a {
                    assert(self.connected@.contains_key(a) && self.connected@[a] == (if mid.contains_key(
                        a,
                    ) {
                        mid[a]
                    } else {
                        Set::<usize>::empty()
                    }).insert(b));
                } else if u == b {
                    assert(self.connected@.contains_key(b));
                    if a != b {
                        assert(self.connected@[b] == mid[b]);
                        assert(mid[b] == (if old(self).connected@.contains_key(b) {
                            old(self).connected@[b]
                        } else {
                            Set::<usize>::empty()
                        }).insert(a));
                    }
                } else {
                    assert(self.connected@.contains_key(u) == old(self).connected@.contains_key(u));
                    if self.connected@.contains_key(u) {
                        assert(self.connected@[u] == old(self).connected@[u]);
                    }
                }
            }
            assert forall|u: usize| #[trigger] self.connected@.contains_key(u) implies exists|
                v: usize,
            | self.connected@[u].contains(v) by {
                if u == a {
                    assert(self.connected@[a].contains(b));
                } else if u == b {
                    assert(self.connected@[b].contains(a));
                } else {
                    assert(old(self).connected@.contains_key(u));
                    let v = choose|v: usize| old(self).connected@[u].contains(v);
                    assert(self.connected@[u].contains(v));
                }
            }
        }
        Ok(())
    }

    /// Inserts a vertex; never fails and never disturbs edges.
    pub fn add_vertex_raw(&mut self, a: usize) -> (r: Result<(), GraphError>)
        requires
            old(self).wf(),
        ensures
            final(self).wf(),
            r.is_ok(),
            final(self).verts() == old(self).verts().insert(a),
            final(self).edge_map() == old(self).edge_map(),
            final(self).spec_name() == old(self).spec_name(),
    {
        self.vertices.insert(a);
        proof {
            assert forall|e: (usize, usize)| #[trigger]
                self.edges@.contains_key(e) implies self.vertices@.contains(e.0)
                && self.vertices@.contains(e.1) by {
                assert(old(self).vertices@.contains(e.0) && old(self).vertices@.contains(e.1));
            }
            assert(wf_ulinks(self.edges@, self.connected@) == wf_ulinks(
                old(self).edges@,
                old(self).connected@,
            ));
        }
        Ok(())
    }

    /// Whether an edge joins `t.0` and `t.1`, in either orientation.
    pub fn has_edge_raw(&self, t: &(usize, usize)) -> (r: bool)
        requires
            self.wf(),
        ensures
            r == self.has_edge(t.0, t.1),
    {
        if t.0 < t.1 {
            self.edges.contains_key(t.0, t.1)
        } else {
            self.edges.contains_key(t.1, t.0)
        }
    }

    /// The `connected` entry of a vertex is exactly its neighbour set.
    pub(crate) proof fn lemma_neigh_set(&self, a: usize)
        requires
            self.wf(),
        ensures
            self.connected@.contains_key(a) ==> self.connected@[a] == self.spec_neighbours_of(a),
            !self.connected@.contains_key(a) ==> self.spec_neighbours_of(a) == Set::<
                usize,
            >::empty(),
    {
        assert forall|v: usize|
            (self.connected@.contains_key(a) && self.connected@[a].contains(v))
                == self.spec_neighbours_of(a).contains(v) by {
            assert((self.connected@.contains_key(a) && self.connected@[a].contains(v)) <==> (
            self.edges@.contains_key((a, v)) || self.edges@.contains_key((v, a))));
            if self.edges@.contains_key((a, v)) {
                assert((a, v).0 <= (a, v).1);
                assert(canon(a, v) == (a, v));
            }
            if self.edges@.contains_key((v, a)) {
                assert((v, a).0 <= (v, a).1);
                assert(canon(a, v) == (v, a));
            }
            if self.edges@.contains_key(canon(a, v)) {
                assert(self.edges@.contains_key((a, v)) || self.edges@.contains_key((v, a)));
            }
        }
        if self.connected@.contains_key(a) {
            assert(self.connected@[a] =~= self.spec_neighbours_of(a));
        } else {
            assert(self.spec_neighbours_of(a) =~= Set::<usize>::empty());
        }
    }

    /// The set of neighbours of `a`; an error when `a` is not a vertex.
    pub fn neighbours(&self, a: &usize) -> (r: Result<VertexSet, GraphError>)
        requires
            self.wf(),
        ensures
            match r {
                Ok(s) => self.verts().contains(*a) && s.wf() && s@ == self.spec_neighbours_of(*a),
                Err(e) => !self.verts().contains(*a) && e is VertexError,
            },
    {
        if self.vertices.contains(*a) {
            proof {
                self.lemma_neigh_set(*a);
            }
            match self.connected.get(*a) {
                Some(v) => {
                    let s = v.clone();
                    Ok(s)
                },
                None => {
                    let s = VertexSet::new();
                    Ok(s)
                },
            }
        } else {
            Err(GraphError::VertexError("vertex not found in graph".to_string()))
        }
    }

    /// The canonical weighted edge map, borrowed.
    pub fn edges(&self) -> (r: &EdgeMap)
        requires
            self.wf(),
        ensures
            r@ == self.edge_map(),
            r.wf(),
    {
        &self.edges
    }

    /// The graph's name.
    pub fn name(&self) -> (r: String)
        ensures
            r@ == self.spec_name(),
    {
        self.name.clone()
    }

    /// The vertex set, borrowed.
    pub fn vertices(&self) -> (r: &VertexSet)
        requires
            self.wf(),
        ensures
            r@ == self.verts(),
            r.wf(),
    {
        &self.vertices
    }

    /// Removes the edge joining `a` and `b`. Both endpoints must be vertices;
    /// removing an absent edge reports an edge error and leaves the graph
    /// unchanged.
    #[verifier::spinoff_prover]
    #[verifier::rlimit(100)]
    pub fn remove_edge_raw(&mut self, a: &usize, b: &usize) -> (r: Result<(), GraphError>)
        requires
            old(self).wf(),
        ensures
            final(self).wf(),
            final(self).verts() == old(self).verts(),
            final(self).spec_name() == old(self).spec_name(),
            match r {
                Ok(()) => old(self).verts().contains(*a) && old(self).verts().contains(*b)
                    && old(self).has_edge(*a, *b) && final(self).edge_map() == old(
                    self,
                ).edge_map().remove(canon(*a, *b)),
                Err(e) => final(self).edge_map() == old(self).edge_map() && (if !(old(
                    self,
                ).verts().contains(*a) && old(self).verts().contains(*b)) {
                    e is VertexError
                } else {
                    e is EdgeError && !old(self).has_edge(*a, *b)
                }),
            },
    {
        let a0 = *a;
        let b0 = *b;
        if self.vertices.contains(a0) && self.vertices.contains(b0) {
            let present = if a0 < b0 {
                self.edges.contains_key(a0, b0)
            } else {
                self.edges.contains_key(b0, a0)
            };
            if present {
                if a0 < b0 {
                    self.edges.remove(a0, b0);
                } else {
                    self.edges.remove(b0, a0);
                }
                proof {
                    assert(old(self).edges@.contains_key(canon(a0, b0)));
                    assert(old(self).edges@.contains_key((a0, b0)) || old(
                        self,
                    ).edges@.contains_key((b0, a0)));
                    assert(wf_ulinks(old(self).edges@, old(self).connected@));
                    assert((old(self).connected@.contains_key(b0) && old(
                        self,
                    ).connected@[b0].contains(a0)) <==> (old(self).edges@.contains_key((b0, a0))
                        || old(self).edges@.contains_key((a0, b0))));
                    assert((old(self).connected@.contains_key(a0) && old(
                        self,
                    ).connected@[a0].contains(b0)) <==> (old(self).edges@.contains_key((a0, b0))
                        || old(self).edges@.contains_key((b0, a0))));
                    assert(old(self).connected@.contains_key(b0) && old(
                        self,
                    ).connected@[b0].contains(a0));
                    assert(old(self).connected@.contains_key(a0) && old(
                        self,
                    ).connected@[a0].contains(b0));
                }
                self.connected.remove_member_prune(b0, a0);
                if a0 != b0 {
                    proof {
                        let mid = if old(self).connected@[b0].remove(a0).is_empty() {
                            old(self).connected@.remove(b0)
                        } else {
                            old(self).connected@.insert(b0, old(self).connected@[b0].remove(a0))
                        };
                        assert(self.connected@ == mid);
                        assert(mid.contains_key(a0) && mid[a0] == old(self).connected@[a0]);
                    }
                    self.connected.remove_member_prune(a0, b0);
                }
                proof {
                    UGraph::lemma_wf_after_remove_edge(old(self), self, a0, b0);
                }
                Ok(())
            } else {
                Err(GraphError::EdgeError("edge not found in graph".to_string()))
            }
        } else {
            Err(GraphError::VertexError("vertex not found in graph".to_string()))
        }
    }

    /// Removing one canonical edge and pruning both index entries restores
    /// well-formedness.
    #[verifier::spinoff_prover]
    #[verifier::rlimit(100)]
    pub(crate) proof fn lemma_wf_after_remove_edge(
        pre: &UGraph,
        post: &UGraph,
        a0: usize,
        b0: usize,
    )
        requires
            pre.wf(),
            pre.has_edge(a0, b0),
            post.vertices == pre.vertices,
            post.edges.wf(),
            post.connected.wf(),
            post.edges@ == pre.edges@.remove(canon(a0, b0)),
            a0 == b0 ==> post.connected@ == (if pre.connected@[a0].remove(a0).is_empty() {
                pre.connected@.remove(a0)
            } else {
                pre.connected@.insert(a0, pre.connected@[a0].remove(a0))
            }),
            a0 != b0 ==> ({
                let mid = if pre.connected@[b0].remove(a0).is_empty() {
                    pre.connected@.remove(b0)
                } else {
                    pre.connected@.insert(b0, pre.connected@[b0].remove(a0))
                };
                post.connected@ == (if pre.connected@[a0].remove(b0).is_empty() {
                    mid.remove(a0)
                } else {
                    mid.insert(a0, pre.connected@[a0].remove(b0))
                })
            }),
        ensures
            post.wf(),
    {
        assert(pre.connected@.contains_key(b0) && pre.connected@[b0].contains(a0));
        assert(pre.connected@.contains_key(a0) && pre.connected@[a0].contains(b0));
        assert forall|e: (usize, usize)| #[trigger]
            post.edges@.contains_key(e) implies post.vertices@.contains(e.0)
            && post.vertices@.contains(e.1) && e.0 <= e.1 by {
            assert(pre.edges@.contains_key(e));
        }
        // Membership in the pruned index drops exactly the removed pair,
        // in both orientations.
        assert forall|u: usize, v: usize|
            #![trigger post.connected@[u].contains(v)]
            #![trigger pre.connected@[u].contains(v)]
            (post.connected@.contains_key(u) && post.connected@[u].contains(v)) <==> (
            pre.connected@.contains_key(u) && pre.connected@[u].contains(v) && !(u == a0 && v == b0)
                && !(u == b0 && v == a0)) by {
            if u == a0 || u == b0 {
            } else {
                assert(post.connected@.contains_key(u) == pre.connected@.contains_key(u));
                if post.connected@.contains_key(u) {
                    assert(post.connected@[u] == pre.connected@[u]);
                }
            }
        }
        assert forall|u: usize, v: usize|
            #![trigger post.connected@[u].contains(v)]
            #![trigger post.edges@.contains_key((u, v))]
            (post.connected@.contains_key(u) && post.connected@[u].contains(v)) <==> (
            post.edges@.contains_key((u, v)) || post.edges@.contains_key((v, u))) by {
            assert((pre.connected@.contains_key(u) && pre.connected@[u].contains(v)) <==> (
            pre.edges@.contains_key((u, v)) || pre.edges@.contains_key((v, u))));
            assert(post.edges@.contains_key((u, v)) == (pre.edges@.contains_key((u, v)) && (u, v)
                != canon(a0, b0)));
            assert(post.edges@.contains_key((v, u)) == (pre.edges@.contains_key((v, u)) && (v, u)
                != canon(a0, b0)));
            if pre.edges@.contains_key((u, v)) && (u, v) == canon(a0, b0) {
                assert((u == a0 && v == b0) || (u == b0 && v == a0));
            }
            if pre.edges@.contains_key((v, u)) && (v, u) == canon(a0, b0) {
                assert((u == a0 && v == b0) || (u == b0 && v == a0));
            }
            if (u == a0 && v == b0) || (u == b0 && v == a0) {
                assert(pre.edges@.contains_key(canon(a0, b0)));
                assert(canon(u, v) == canon(a0, b0));
                assert(!post.edges@.contains_key((u, v)) && !post.edges@.contains_key((v, u))) by {
                    if post.edges@.contains_key((u, v)) {
                        assert((u, v) == canon(u, v));
                    }
                    if post.edges@.contains_key((v, u)) {
                        assert((v, u) == canon(v, u));
                    }
                }
            }
        }
        assert forall|u: usize| #[trigger] post.connected@.contains_key(u) implies exists|v: usize|
            post.connected@[u].contains(v) by {
            if u == a0 {
                if a0 == b0 {
                    assert(!pre.connected@[a0].remove(a0).is_empty());
                    assert(post.connected@[a0] == pre.connected@[a0].remove(a0));
                } else {
                    assert(!pre.connected@[a0].remove(b0).is_empty());
                    assert(post.connected@[a0] == pre.connected@[a0].remove(b0));
                }
                if forall|v: usize| !post.connected@[a0].contains(v) {
                    assert(post.connected@[a0] =~= Set::<usize>::empty());
                }
                let v = choose|v: usize| post.connected@[a0].contains(v);
                assert(post.connected@[u].contains(v));
            } else if u == b0 {
                assert(!pre.connected@[b0].remove(a0).is_empty());
                assert(post.connected@[b0] == pre.connected@[b0].remove(a0));
                if forall|v: usize| !post.connected@[b0].contains(v) {
                    assert(post.connected@[b0] =~= Set::<usize>::empty());
                }
                let v = choose|v: usize| post.connected@[b0].contains(v);
                assert(post.connected@[u].contains(v));
            } else {
                assert(pre.connected@.contains_key(u));
                let v = choose|v: usize| pre.connected@[u].contains(v);
                assert(post.connected@[u].contains(v));
            }
        }
    }

    /// Removes `a` and every edge incident to it; an error when `a` is not a
    /// vertex.
    #[verifier::spinoff_prover]
    #[verifier::rlimit(100)]
    pub fn remove_vertex_raw(&mut self, a: &usize) -> (r: Result<(), GraphError>)
        requires
            old(self).wf(),
        ensures
            final(self).wf(),
            final(self).spec_name() == old(self).spec_name(),
            match r {
                Ok(()) => old(self).verts().contains(*a) && final(self).verts() == old(
                    self,
                ).verts().remove(*a) && final(self).edge_map() == Map::<(usize, usize), i64>::new(
                    |e: (usize, usize)|
                        old(self).edge_map().contains_key(e) && e.0 != *a && e.1 != *a,
                    |e: (usize, usize)| old(self).edge_map()[e],
                ),
                Err(e) => e is VertexError && !old(self).verts().contains(*a) && final(self).verts()
                    == old(self).verts() && final(self).edge_map() == old(self).edge_map(),
            },
    {
        let a0 = *a;
        if !self.vertices.contains(a0) {
            return Err(GraphError::VertexError("vertex not found in graph".to_string()));
        }
        let ns = match self.connected.get(a0) {
            Some(v) => v.clone(),
            None => VertexSet::new(),
        };
        proof {
            self.lemma_neigh_set(a0);
            assert(ns@ =~= self.spec_neighbours_of(a0));
        }
        let ghost m0 = self.edge_map();
        let mut i: usize = 0;
        while i < ns.items.len()
            invariant
                self.wf(),
                ns.wf(),
                i <= ns.items.len(),
                self.verts() == old(self).verts(),
                self.spec_name() == old(self).spec_name(),
                old(self).verts().contains(a0),
                ns@ == Set::new(|v: usize| m0.contains_key(canon(a0, v))),
                m0 == old(self).edge_map(),
                forall|e: (usize, usize)| #[trigger] m0.contains_key(e) ==> e.0 <= e.1,
                self.edge_map() == Map::<(usize, usize), i64>::new(
                    |e: (usize, usize)|
                        m0.contains_key(e) && !(ns.items@.take(i as int).to_set().contains(e.0)
                            && e.1 == a0) && !(ns.items@.take(i as int).to_set().contains(e.1)
                            && e.0 == a0),
                    |e: (usize, usize)| m0[e],
                ),
            decreases ns.items.len() - i,
        {
            let v = ns.items[i];
            proof {
                assert(ns.items@.contains(v));
                assert(ns@.contains(v));
                assert(m0.contains_key(canon(a0, v)));
                assert(!ns.items@.take(i as int).to_set().contains(v));
                assert(self.edge_map().contains_key(canon(a0, v)));
                assert(self.has_edge(a0, v));
                assert(self.verts().contains(a0) && self.verts().contains(v)) by {
                    assert(m0.contains_key(canon(a0, v)));
                }
            }
            let ghost prev = self.edge_map();
            let rr = self.remove_edge_raw(&a0, &v);
            proof {
                broadcast use vstd::seq_lib::lemma_seq_contains_after_push;

                assert(ns.items@.take(i + 1) == ns.items@.take(i as int).push(
                    ns.items@[i as int],
                ));
                assert(self.edge_map() =~= Map::<(usize, usize), i64>::new(
                    |e: (usize, usize)|
                        m0.contains_key(e) && !(ns.items@.take(i + 1).to_set().contains(e.0)
                            && e.1 == a0) && !(ns.items@.take(i + 1).to_set().contains(e.1) && e.0
                            == a0),
                    |e: (usize, usize)| m0[e],
                ));
            }
            i = i + 1;
        }
        proof {
            assert(ns.items@.take(ns.items@.len() as int) == ns.items@);
            assert forall|e: (usize, usize)| #[trigger]
                m0.contains_key(e) && (e.0 == a0 || e.1 == a0) implies ns@.contains(e.0)
                || ns@.contains(e.1) by {
                assert(canon(e.0, e.1) == e);
                if e.0 == a0 {
                    assert(m0.contains_key(canon(a0, e.1)));
                } else {
                    assert(m0.contains_key(canon(a0, e.0)));
                }
            }
            assert(self.edge_map() =~= Map::<(usize, usize), i64>::new(
                |e: (usize, usize)|
                    m0.contains_key(e) && e.0 != a0 && e.1 != a0,
                |e: (usize, usize)| m0[e],
            ));
        }
        let ghost pre = *self;
        self.vertices.remove(a0);
        proof {
            assert forall|e: (usize, usize)| #[trigger]
                self.edges@.contains_key(e) implies self.vertices@.contains(e.0)
                && self.vertices@.contains(e.1) by {
                assert(pre.edges@.contains_key(e));
                assert(e.0 != a0 && e.1 != a0);
                assert(pre.vertices@.contains(e.0) && pre.vertices@.contains(e.1));
            }
            if self.connected@.contains_key(a0) {
                let v = choose|v: usize| self.connected@[a0].contains(v);
                assert(self.edges@.contains_key((a0, v)) || self.edges@.contains_key((v, a0)));
            }
        }
        self.connected.remove_key(a0);
        proof {
            assert(self.connected@ =~= pre.connected@);
        }
        Ok(())
    }
}

impl Clone for UGraph {
    fn clone(&self) -> (r: Self)
        ensures
            r.spec_name() == self.spec_name(),
            self.wf() ==> r.wf() && r.verts() == self.verts() && r.edge_map() == self.edge_map(),
    {
        let r = UGraph {
            name: self.name.clone(),
            vertices: self.vertices.clone(),
            edges: self.edges.clone(),
            connected: self.connected.clone(),
        };
        proof {
            if self.wf() {
                assert(crate::graph::wf_closed(r.vertices@, r.edges@) == crate::graph::wf_closed(
                    self.vertices@,
                    self.edges@,
                ));
                assert(wf_ulinks(r.edges@, r.connected@) == wf_ulinks(
                    self.edges@,
                    self.connected@,
                ));
                assert forall|e: (usize, usize)| #[trigger]
                    r.edges@.contains_key(e) implies e.0 <= e.1 by {
                    assert(self.edges@.contains_key(e));
                }
            }
        }
        r
    }
}

} // verus!
