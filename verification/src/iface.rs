//! The read-only capability shared by both graph structures, which every
//! algorithm is written against.

use crate::error::GraphError;
use crate::graph::Graph;
use crate::store::VertexSet;
use crate::ugraph::canon;
use crate::ugraph::UGraph;
use vstd::prelude::*;

verus! {

/// The read-only capability every algorithm is written against. `gadj` is the
/// outbound direction for directed graphs and the full neighbour set for
/// undirected ones; `gneigh` is always the union of both directions.
pub trait GraphAny: Sized {
    /// The set of vertices.
    spec fn gverts(&self) -> Set<usize>;

    /// The vertices an algorithm may step to from `a`.
    spec fn gadj(&self, a: usize) -> Set<usize>;

    /// The vertices joined to `a` by an edge in either direction.
    spec fn gneigh(&self, a: usize) -> Set<usize>;

    /// Whether the graph stores an edge for the ordered pair `(u, v)`.
    spec fn gedge(&self, u: usize, v: usize) -> bool;

    /// The weight stored for the pair `(u, v)`, when `gedge(u, v)` holds.
    spec fn gweight(&self, u: usize, v: usize) -> i64;

    /// The structure's own well-formedness.
    spec fn gwf(&self) -> bool;

    /// Facts every well-formed graph provides: steps follow stored edges,
    /// edges join vertices, and the vertex set is finite.
    proof fn lemma_gwf(&self)
        requires
            self.gwf(),
        ensures
            forall|a: usize, b: usize| #[trigger]
                self.gadj(a).contains(b) ==> self.gverts().contains(a) && self.gverts().contains(b)
                    && self.gedge(a, b),
            forall|a: usize, b: usize| #[trigger]
                self.gedge(a, b) ==> self.gverts().contains(a) && self.gverts().contains(b)
                    && self.gneigh(a).contains(b) && self.gadj(a).contains(b),
            self.gverts().finite(),
    ;

    fn adjacent(&self, a: &usize) -> (r: Result<VertexSet, GraphError>)
        requires
            self.gwf(),
        ensures
            match r {
                Ok(s) => self.gverts().contains(*a) && s.wf() && s@ == self.gadj(*a),
                Err(e) => !self.gverts().contains(*a) && e is VertexError,
            },
    ;

    fn has_edge_raw(&self, ev: &(usize, usize)) -> (r: bool)
        requires
            self.gwf(),
        ensures
            r == self.gedge(ev.0, ev.1),
    ;

    fn neighbours(&self, a: &usize) -> (r: Result<VertexSet, GraphError>)
        requires
            self.gwf(),
        ensures
            match r {
                Ok(s) => self.gverts().contains(*a) && s.wf() && s@ == self.gneigh(*a),
                Err(e) => !self.gverts().contains(*a) && e is VertexError,
            },
    ;

    fn vertices(&self) -> (r: &VertexSet)
        requires
            self.gwf(),
        ensures
            r.wf(),
            r@ == self.gverts(),
    ;

    fn weight(&self, ev: &(usize, usize)) -> (r: Result<i64, GraphError>)
        requires
            self.gwf(),
        ensures
            match r {
                Ok(w) => self.gedge(ev.0, ev.1) && w == self.gweight(ev.0, ev.1),
                Err(e) => !self.gedge(ev.0, ev.1) && e is EdgeError,
            },
    ;
}

impl GraphAny for Graph {
    open spec fn gverts(&self) -> Set<usize> {
        self.verts()
    }

    open spec fn gadj(&self, a: usize) -> Set<usize> {
        self.spec_outbound_of(a)
    }

    open spec fn gneigh(&self, a: usize) -> Set<usize> {
        self.spec_neighbours_of(a)
    }

    open spec fn gedge(&self, u: usize, v: usize) -> bool {
        self.has_edge(u, v)
    }

    open spec fn gweight(&self, u: usize, v: usize) -> i64 {
        self.edge_map()[(u, v)]
    }

    open spec fn gwf(&self) -> bool {
        self.wf()
    }

    proof fn lemma_gwf(&self) {
        assert forall|a: usize, b: usize| #[trigger]
            self.gadj(a).contains(b) implies self.gverts().contains(a) && self.gverts().contains(b)
            && self.gedge(a, b) by {
            assert(self.edges@.contains_key((a, b)));
        }
        assert forall|a: usize, b: usize| #[trigger]
            self.gedge(a, b) implies self.gverts().contains(a) && self.gverts().contains(b)
            && self.gneigh(a).contains(b) && self.gadj(a).contains(b) by {
            assert(self.edges@.contains_key((a, b)));
        }
        vstd::seq_lib::seq_to_set_is_finite(self.vertices.items@);
    }

    fn adjacent(&self, a: &usize) -> Result<VertexSet, GraphError> {
        self.outbound(a)
    }

    fn has_edge_raw(&self, ev: &(usize, usize)) -> bool {
        self.has_edge_raw(ev)
    }

    fn neighbours(&self, a: &usize) -> Result<VertexSet, GraphError> {
        self.neighbours(a)
    }

    fn vertices(&self) -> &VertexSet {
        self.vertices()
    }

    fn weight(&self, ev: &(usize, usize)) -> (r: Result<i64, GraphError>) {
        match self.edges.get(ev.0, ev.1) {
            Some(w) => Ok(w),
            None => Err(GraphError::EdgeError("no edge found between the endpoints".to_string())),
        }
    }
}


impl GraphAny for UGraph {
    open spec fn gverts(&self) -> Set<usize> {
        self.verts()
    }

    open spec fn gadj(&self, a: usize) -> Set<usize> {
        self.spec_neighbours_of(a)
    }

    open spec fn gneigh(&self, a: usize) -> Set<usize> {
        self.spec_neighbours_of(a)
    }

    open spec fn gedge(&self, u: usize, v: usize) -> bool {
        self.has_edge(u, v)
    }

    open spec fn gweight(&self, u: usize, v: usize) -> i64 {
        self.edge_map()[canon(u, v)]
    }

    open spec fn gwf(&self) -> bool {
        self.wf()
    }

    proof fn lemma_gwf(&self) {
        assert forall|a: usize, b: usize| #[trigger]
            self.gadj(a).contains(b) implies self.gverts().contains(a) && self.gverts().contains(b)
            && self.gedge(a, b) by {
            assert(self.edges@.contains_key(canon(a, b)));
            assert(canon(a, b).0 == a || canon(a, b).1 == a);
        }
        assert forall|a: usize, b: usize| #[trigger]
            self.gedge(a, b) implies self.gverts().contains(a) && self.gverts().contains(b)
            && self.gneigh(a).contains(b) && self.gadj(a).contains(b) by {
            assert(self.edges@.contains_key(canon(a, b)));
        }
        vstd::seq_lib::seq_to_set_is_finite(self.vertices.items@);
    }

    fn adjacent(&self, a: &usize) -> Result<VertexSet, GraphError> {
        self.neighbours(a)
    }

    fn has_edge_raw(&self, ev: &(usize, usize)) -> bool {
        self.has_edge_raw(ev)
    }

    fn neighbours(&self, a: &usize) -> Result<VertexSet, GraphError> {
        self.neighbours(a)
    }

    fn vertices(&self) -> &VertexSet {
        self.vertices()
    }

    fn weight(&self, ev: &(usize, usize)) -> (r: Result<i64, GraphError>) {
        let got = if ev.0 < ev.1 {
            self.edges.get(ev.0, ev.1)
        } else {
            self.edges.get(ev.1, ev.0)
        };
        match got {
            Some(w) => Ok(w),
            None => Err(GraphError::EdgeError("no edge found between the endpoints".to_string())),
        }
    }
}


} // verus!
