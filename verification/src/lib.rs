//! In-memory graph computation: mutable directed and undirected graph
//! structures with adjacency-index invariants, traversal and shortest-path
//! algorithms over a common capability trait, and a seeded portable
//! pseudo-random generator for reproducible community detection.

use vstd::prelude::*;

pub mod error;
pub mod graph;
pub mod iface;
pub mod prng;
pub mod reach;
pub mod traverse;
pub mod ugraph;
pub mod store;

verus! {

use crate::error::GraphError;
use crate::graph::Graph;
use crate::ugraph::canon;
use crate::ugraph::UGraph;

/// Whether two directed edges over one vertex pair carry different weights,
/// which makes a merge into an undirected graph ambiguous.
pub open spec fn spec_weight_conflict(em: Map<(usize, usize), i64>) -> bool {
    exists|a: usize, b: usize|
        em.contains_key((a, b)) && em.contains_key((b, a)) && em[(a, b)] != em[(b, a)]
}

/// The directed edge relation folded onto canonical undirected keys: a
/// canonical pair carries the weight of whichever direction the directed
/// graph stores.
pub open spec fn spec_canonical_edges(em: Map<(usize, usize), i64>) -> Map<(usize, usize), i64> {
    Map::new(
        |e: (usize, usize)| e.0 <= e.1 && (em.contains_key(e) || em.contains_key((e.1, e.0))),
        |e: (usize, usize)|
            if em.contains_key(e) {
                em[e]
            } else {
                em[(e.1, e.0)]
            },
    )
}

/// Adding a directed edge whose canonical key is not yet covered extends the
/// canonical fold by that key.
#[verifier::spinoff_prover]
#[verifier::rlimit(100)]
proof fn lemma_canon_add(pk: Map<(usize, usize), i64>, e: (usize, usize), w: i64)
    requires
        !pk.contains_key(e),
        !pk.contains_key((e.1, e.0)),
    ensures
        spec_canonical_edges(pk.insert(e, w)) == spec_canonical_edges(pk).insert(
            canon(e.0, e.1),
            w,
        ),
        !spec_weight_conflict(pk) ==> !spec_weight_conflict(pk.insert(e, w)),
{
    let m1 = spec_canonical_edges(pk.insert(e, w));
    let m2 = spec_canonical_edges(pk).insert(canon(e.0, e.1), w);
    assert forall|x: (usize, usize)| #![auto] m1.contains_key(x) == m2.contains_key(x) && (
    m1.contains_key(x) ==> m1[x] == m2[x]) by {
        if x == canon(e.0, e.1) {
            assert(x == e || x == (e.1, e.0));
        }
    }
    assert(m1 =~= m2);
    if !spec_weight_conflict(pk) {
        assert forall|a: usize, b: usize|
            pk.insert(e, w).contains_key((a, b)) && pk.insert(e, w).contains_key(
                (b, a),
            ) implies pk.insert(e, w)[(a, b)] == pk.insert(e, w)[(b, a)] by {
            if (a, b) == e && (b, a) == e {
            } else if (a, b) == e {
                assert(pk.contains_key((b, a)));
            } else if (b, a) == e {
                assert(pk.contains_key((a, b)));
            } else {
                assert(pk.contains_key((a, b)) && pk.contains_key((b, a)));
            }
        }
    }
}

/// Adding a directed edge whose reverse is already covered with the same
/// weight leaves the canonical fold unchanged.
#[verifier::spinoff_prover]
#[verifier::rlimit(100)]
proof fn lemma_canon_dup(pk: Map<(usize, usize), i64>, e: (usize, usize), w: i64)
    requires
        !pk.contains_key(e),
        pk.contains_key((e.1, e.0)),
        pk[(e.1, e.0)] == w,
    ensures
        spec_canonical_edges(pk.insert(e, w)) == spec_canonical_edges(pk),
        !spec_weight_conflict(pk) ==> !spec_weight_conflict(pk.insert(e, w)),
{
    let m1 = spec_canonical_edges(pk.insert(e, w));
    let m2 = spec_canonical_edges(pk);
    assert forall|x: (usize, usize)| #![auto] m1.contains_key(x) == m2.contains_key(x) && (
    m1.contains_key(x) ==> m1[x] == m2[x]) by {
        if x == e || x == (e.1, e.0) {
        }
    }
    assert(m1 =~= m2);
    if !spec_weight_conflict(pk) {
        assert forall|a: usize, b: usize|
            pk.insert(e, w).contains_key((a, b)) && pk.insert(e, w).contains_key(
                (b, a),
            ) implies pk.insert(e, w)[(a, b)] == pk.insert(e, w)[(b, a)] by {
            if (a, b) == e {
                assert(pk.contains_key((b, a)));
            } else if (b, a) == e {
                assert(pk.contains_key((a, b)));
            } else {
                assert(pk.contains_key((a, b)) && pk.contains_key((b, a)));
            }
        }
    }
}

/// Merges a directed graph into an undirected one. The merge fails with a
/// conversion error exactly when the two directions of one logical edge carry
/// different weights; on success the vertex set and name carry over and the
/// edge map is the directed edge map folded onto canonical keys.
#[verifier::spinoff_prover]
#[verifier::rlimit(100)]
pub fn ugraph_from_graph(g: &Graph) -> (r: Result<UGraph, GraphError>)
    requires
        g.wf(),
    ensures
        match r {
            Ok(u) => u.wf() && u.verts() == g.verts() && u.spec_name() == g.spec_name()
                && u.edge_map() == spec_canonical_edges(g.edge_map()) && !spec_weight_conflict(
                g.edge_map(),
            ),
            Err(e) => e is ConversionError && spec_weight_conflict(g.edge_map()),
        },
{
    let name = g.name();
    let mut u = UGraph::new_with_name(name.as_str());
    let vs = g.vertices();
    let mut i: usize = 0;
    while i < vs.items.len()
        invariant
            u.wf(),
            vs.wf(),
            vs.items@.to_set() == g.verts(),
            i <= vs.items@.len(),
            u.spec_name() == g.spec_name(),
            u.edge_map() == Map::<(usize, usize), i64>::empty(),
            u.verts() == vs.items@.take(i as int).to_set(),
        decreases vs.items@.len() - i,
    {
        let v = vs.items[i];
        let rr = u.add_vertex_raw(v);
        proof {
            broadcast use vstd::seq_lib::lemma_seq_contains_after_push;

            assert(vs.items@.take(i + 1) == vs.items@.take(i as int).push(vs.items@[i as int]));
            assert(u.verts() =~= vs.items@.take(i + 1).to_set());
        }
        i = i + 1;
    }
    proof {
        assert(vs.items@.take(vs.items@.len() as int) == vs.items@);
    }
    let em = g.edges();
    let ghost m0 = g.edge_map();
    let mut k: usize = 0;
    while k < em.entries.len()
        invariant
            u.wf(),
            em.wf(),
            em@ == m0,
            m0 == g.edge_map(),
            g.wf(),
            k <= em.entries@.len(),
            u.spec_name() == g.spec_name(),
            u.verts() == g.verts(),
            u.edge_map() == spec_canonical_edges(m0.restrict(em.key_seq().take(k as int).to_set())),
            !spec_weight_conflict(m0.restrict(em.key_seq().take(k as int).to_set())),
        decreases em.entries@.len() - k,
    {
        let e = em.entries[k].0;
        let w = em.entries[k].1;
        let ghost pk = m0.restrict(em.key_seq().take(k as int).to_set());
        proof {
            em.lemma_entry(k as int);
            assert(em.key_seq()[k as int] == e);
            assert(m0.contains_key(e) && m0[e] == w);
            assert(!pk.contains_key(e)) by {
                if em.key_seq().take(k as int).to_set().contains(e) {
                    let j = choose|j: int| 0 <= j < k && em.key_seq().take(k as int)[j] == e;
                    assert(em.key_seq()[j] == em.key_seq()[k as int]);
                }
            }
            assert(em.key_seq().take(k + 1) == em.key_seq().take(k as int).push(
                em.key_seq()[k as int],
            ));
            broadcast use vstd::seq_lib::lemma_seq_contains_after_push;

            assert(em.key_seq().take(k + 1).to_set() =~= em.key_seq().take(
                k as int,
            ).to_set().insert(e));
            assert(m0.restrict(em.key_seq().take(k + 1).to_set()) =~= pk.insert(e, w));
        }
        let present = u.has_edge_raw(&e);
        if present {
            proof {
                // The canonical key is already there, so the reverse edge was
                // processed earlier and carries the stored weight.
                assert(pk.contains_key(e) || pk.contains_key((e.1, e.0)));
                assert(pk.contains_key((e.1, e.0)) && e.1 != e.0);
                assert(m0.contains_key((e.1, e.0)) && pk[(e.1, e.0)] == m0[(e.1, e.0)]);
            }
            let existing = match if e.0 < e.1 {
                u.edges.get(e.0, e.1)
            } else {
                u.edges.get(e.1, e.0)
            } {
                Some(x) => x,
                None => {
                    proof {
                        assert(u.edge_map().contains_key(canon(e.0, e.1)));
                        assert(false);
                    }
                    return Err(
                        GraphError::ConversionError(
                            "cannot merge a bidirectional edge with different weights".to_string(),
                        ),
                    );
                },
            };
            proof {
                assert(existing == u.edge_map()[canon(e.0, e.1)]);
                assert(existing == m0[(e.1, e.0)]) by {
                    if e.0 < e.1 {
                        assert(!pk.contains_key((e.0, e.1)));
                    }
                }
            }
            if existing != w {
                proof {
                    assert(m0.contains_key((e.0, e.1)) && m0.contains_key((e.1, e.0)) && m0[(
                        e.0,
                        e.1,
                    )] != m0[(e.1, e.0)]);
                    assert(spec_weight_conflict(m0));
                }
                return Err(
                    GraphError::ConversionError(
                        "cannot merge a bidirectional edge with different weights".to_string(),
                    ),
                );
            }
            proof {
                lemma_canon_dup(pk, e, w);
            }
        } else {
            proof {
                assert(g.edge_map().contains_key(e));
                assert(g.verts().contains(e.0) && g.verts().contains(e.1));
                assert(!pk.contains_key((e.1, e.0))) by {
                    if pk.contains_key((e.1, e.0)) {
                        assert(u.edge_map().contains_key(canon(e.1, e.0)));
                        assert(canon(e.1, e.0) == canon(e.0, e.1));
                    }
                }
            }
            let ghost v0 = u.verts();
            let ghost u0 = u.edge_map();
            let rr = u.add_edge_raw(e.0, e.1, w);
            proof {
                assert(u.verts() =~= v0);
                assert(u.edge_map() == u0.insert(canon(e.0, e.1), w));
                lemma_canon_add(pk, e, w);
            }
        }
        k = k + 1;
    }
    proof {
        assert(em.key_seq().take(em.key_seq().len() as int) == em.key_seq());
        em.lemma_dom();
        assert(m0.restrict(em.key_seq().to_set()) =~= m0);
    }
    Ok(u)
}

} // verus!
