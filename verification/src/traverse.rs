//! Traversals over the graph capability: breadth-first vertex and edge
//! enumeration, unweighted shortest paths, depth-first enumeration, connected
//! components and topological sort.

use crate::error::GraphError;
use crate::iface::GraphAny;
use crate::reach::is_walk;
use crate::reach::lemma_reach_in_closed;
use crate::reach::lemma_reach_self;
use crate::reach::lemma_reach_step;
use crate::store::VecMap;
use crate::store::VertexSet;
use vstd::prelude::*;

verus! {

/// The vertices a breadth-first edge enumeration has visited: the source and
/// every emitted child.
pub open spec fn bfs_visited(es: Seq<(usize, usize)>, source: usize) -> Set<usize> {
    Set::new(|v: usize| v == source || exists|i: int| 0 <= i < es.len() && es[i].1 == v)
}

/// A duplicate-free vertex list drawn from a well-formed graph is no longer
/// than the vertex set.
proof fn lemma_order_fits<G: GraphAny>(g: &G, order: Seq<usize>)
    requires
        g.gwf(),
        order.no_duplicates(),
        forall|k: int| 0 <= k < order.len() ==> g.gverts().contains(#[trigger] order[k]),
    ensures
        order.len() <= g.gverts().len(),
{
    g.lemma_gwf();
    order.unique_seq_to_set();
    assert forall|v: usize| order.to_set().contains(v) implies g.gverts().contains(v) by {
        let k = choose|k: int| 0 <= k < order.len() && order[k] == v;
    }
    vstd::set_lib::lemma_len_subset(order.to_set(), g.gverts());
}

/// A breadth-first enumeration of tree edges reachable from `source`: every
/// vertex reachable from the source is discovered exactly once, through an
/// edge whose parent was discovered before it.
#[verifier::spinoff_prover]
#[verifier::rlimit(100)]
pub fn bfs_edges<G: GraphAny>(g: &G, source: usize) -> (r: Result<Vec<(usize, usize)>, GraphError>)
    requires
        g.gwf(),
    ensures
        match r {
            Ok(es) => g.gverts().contains(source) && (forall|i: int|
                0 <= i < es@.len() ==> g.gedge((#[trigger] es@[i]).0, es@[i].1)) && es@.map_values(
                |e: (usize, usize)| e.1,
            ).no_duplicates() && (forall|i: int|
                0 <= i < es@.len() ==> (#[trigger] es@[i]).1 != source) && (forall|i: int|
                0 <= i < es@.len() ==> (#[trigger] es@[i]).0 == source || (exists|j: int|
                    0 <= j < i && es@[j].1 == es@[i].0)) && bfs_visited(es@, source) == Set::new(
                |v: usize| crate::reach::spec_reachable(g, source, v),
            ),
            Err(e) => e is VertexError && !g.gverts().contains(source),
        },
{
    proof {
        g.lemma_gwf();
    }
    if !g.vertices().contains(source) {
        return Err(GraphError::VertexError("vertex not found in graph".to_string()));
    }
    let mut order: Vec<usize> = Vec::new();
    order.push(source);
    let mut visited = VertexSet::new();
    visited.insert(source);
    let mut es: Vec<(usize, usize)> = Vec::new();
    let mut head: usize = 0;
    proof {
        lemma_reach_self(g, source);
        assert(order@.len() == 1 && order@[0] == source);
        assert(order@.contains(source));
        assert forall|v: usize| order@.to_set().contains(v) implies v == source by {
            let k = choose|k: int| 0 <= k < order@.len() && order@[k] == v;
        }
        assert(visited@ =~= order@.to_set());
        lemma_order_fits(g, order@);
    }
    while head < order.len()
        invariant
            g.gwf(),
            g.gverts().contains(source),
            visited.wf(),
            order@.no_duplicates(),
            order@.len() >= 1,
            order@[0] == source,
            forall|k: int| 0 <= k < order@.len() ==> g.gverts().contains(#[trigger] order@[k]),
            visited@ == order@.to_set(),
            head <= order@.len(),
            order@.len() <= g.gverts().len(),
            es@.len() == order@.len() - 1,
            forall|i: int| 0 <= i < es@.len() ==> (#[trigger] es@[i]).1 == order@[i + 1],
            forall|i: int|
                0 <= i < es@.len() ==> exists|k: int|
                    0 <= k <= i && (#[trigger] es@[i]).0 == order@[k],
            forall|i: int| 0 <= i < es@.len() ==> g.gedge((#[trigger] es@[i]).0, es@[i].1),
            forall|v: usize|
                #[trigger] visited@.contains(v) ==> crate::reach::spec_reachable(g, source, v),
            forall|k: int| 0 <= k < head ==> g.gadj(#[trigger] order@[k]).subset_of(visited@),
        decreases g.gverts().len() - head,
    {
        let p = order[head];
        proof {
            g.lemma_gwf();
        }
        let adj = match g.adjacent(&p) {
            Ok(s) => s,
            Err(_) => {
                proof {
                    assert(order@.to_set().contains(order@[head as int]));
                    assert(false);
                }
                return Err(GraphError::VertexError("vertex not found in graph".to_string()));
            },
        };
        let mut idx: usize = 0;
        while idx < adj.items.len()
            invariant
                g.gwf(),
                g.gverts().contains(source),
                adj.wf(),
                adj@ == g.gadj(p),
                head < order@.len(),
                p == order@[head as int],
                visited.wf(),
                order@.no_duplicates(),
                order@.len() >= 1,
                order@[0] == source,
                forall|k: int| 0 <= k < order@.len() ==> g.gverts().contains(#[trigger] order@[k]),
                visited@ == order@.to_set(),
                idx <= adj.items@.len(),
                order@.len() <= g.gverts().len(),
                es@.len() == order@.len() - 1,
                forall|i: int| 0 <= i < es@.len() ==> (#[trigger] es@[i]).1 == order@[i + 1],
                forall|i: int|
                    0 <= i < es@.len() ==> exists|k: int|
                        0 <= k <= i && (#[trigger] es@[i]).0 == order@[k],
                forall|i: int| 0 <= i < es@.len() ==> g.gedge((#[trigger] es@[i]).0, es@[i].1),
                forall|v: usize|
                    #[trigger] visited@.contains(v) ==> crate::reach::spec_reachable(g, source, v),
                forall|k: int| 0 <= k < head ==> g.gadj(#[trigger] order@[k]).subset_of(visited@),
                forall|j: int| 0 <= j < idx ==> visited@.contains(#[trigger] adj.items@[j]),
            decreases adj.items@.len() - idx,
        {
            let x = adj.items[idx];
            proof {
                g.lemma_gwf();
                assert(adj.items@.contains(x));
                assert(g.gadj(p).contains(x));
                assert(g.gverts().contains(x) && g.gedge(p, x));
            }
            if !visited.contains(x) {
                proof {
                    assert(!order@.contains(x));
                    crate::store::lemma_seq_push_no_duplicates(order@, x);
                    assert(visited@.contains(p));
                    lemma_reach_step(g, source, p, x);
                }
                let ghost order0 = order@;
                let ghost es0 = es@;
                visited.insert(x);
                es.push((p, x));
                order.push(x);
                proof {
                    broadcast use vstd::seq_lib::lemma_seq_contains_after_push;

                    assert(visited@ =~= order@.to_set());
                    assert(forall|i: int|
                        0 <= i < es0.len() ==> (#[trigger] es@[i]) == es0[i] && order@[i + 1]
                            == order0[i + 1]);
                    assert(es@[es0.len() as int] == (p, x));
                    assert(order@[order0.len() as int] == x);
                    assert forall|i: int| 0 <= i < es@.len() implies exists|k: int|
                        0 <= k <= i && (#[trigger] es@[i]).0 == order@[k] by {
                        if i < es0.len() {
                            let k = choose|k: int| 0 <= k <= i && es0[i].0 == order0[k];
                            assert(order@[k] == order0[k]);
                        } else {
                            assert(es@[i].0 == p == order@[head as int]);
                            assert(head <= i);
                        }
                    }
                    lemma_order_fits(g, order@);
                }
            }
            idx = idx + 1;
        }
        proof {
            assert forall|y: usize| g.gadj(order@[head as int]).contains(y) implies visited@.contains(
                y,
            ) by {
                assert(adj@.contains(y));
                assert(adj.items@.contains(y));
                let j = choose|j: int| 0 <= j < adj.items@.len() && adj.items@[j] == y;
                assert(visited@.contains(adj.items@[j]));
            }
        }
        head = head + 1;
    }
    proof {
        assert forall|v: usize|
            crate::reach::spec_reachable(g, source, v) implies visited@.contains(v) by {
            assert forall|u: usize| visited@.contains(u) implies #[trigger] g.gadj(u).subset_of(
                visited@,
            ) by {
                let k = choose|k: int| 0 <= k < order@.len() && order@[k] == u;
                assert(g.gadj(order@[k]).subset_of(visited@));
            }
            lemma_reach_in_closed(g, visited@, source, v);
        }
        assert(bfs_visited(es@, source) =~= Set::new(
            |v: usize| crate::reach::spec_reachable(g, source, v),
        )) by {
            assert forall|v: usize| bfs_visited(es@, source).contains(v) implies visited@.contains(
                v,
            ) by {
                if v == source {
                } else {
                    let i = choose|i: int| 0 <= i < es@.len() && es@[i].1 == v;
                    assert(order@[i + 1] == v);
                    assert(order@.to_set().contains(order@[i + 1]));
                }
            }
            assert forall|v: usize| visited@.contains(v) implies bfs_visited(es@, source).contains(
                v,
            ) by {
                let k = choose|k: int| 0 <= k < order@.len() && order@[k] == v;
                if k > 0 {
                    assert(es@[k - 1].1 == order@[k]);
                }
            }
        }
        assert(es@.map_values(|e: (usize, usize)| e.1).no_duplicates()) by {
            let m = es@.map_values(|e: (usize, usize)| e.1);
            assert forall|i: int, j: int| 0 <= i < j < m.len() implies m[i] != m[j] by {
                assert(m[i] == es@[i].1 && m[j] == es@[j].1);
                assert(es@[i].1 == order@[i + 1] && es@[j].1 == order@[j + 1]);
            }
        }
        assert forall|i: int| 0 <= i < es@.len() implies (#[trigger] es@[i]).1 != source by {
            assert(es@[i].1 == order@[i + 1] && order@[0] == source);
        }
        assert forall|i: int| 0 <= i < es@.len() implies (#[trigger] es@[i]).0 == source || (
        exists|j: int| 0 <= j < i && es@[j].1 == es@[i].0) by {
            let k = choose|k: int| 0 <= k <= i && es@[i].0 == order@[k];
            if k > 0 {
                assert(es@[k - 1].1 == order@[k]);
            }
        }
    }
    Ok(es)
}

/// A breadth-first enumeration of every edge whose tail is reachable from
/// `source`, each emitted exactly once, oriented as the graph stores it.
#[verifier::spinoff_prover]
#[verifier::rlimit(100)]
pub fn edge_bfs<G: GraphAny>(g: &G, source: usize) -> (r: Result<Vec<(usize, usize)>, GraphError>)
    requires
        g.gwf(),
    ensures
        match r {
            Ok(es) => g.gverts().contains(source) && es@.no_duplicates() && (forall|i: int|
                0 <= i < es@.len() ==> g.gedge((#[trigger] es@[i]).0, es@[i].1)) && es@.to_set()
                == Set::new(
                |e: (usize, usize)|
                    crate::reach::spec_reachable(g, source, e.0) && g.gadj(e.0).contains(e.1),
            ),
            Err(e) => e is VertexError && !g.gverts().contains(source),
        },
{
    proof {
        g.lemma_gwf();
    }
    if !g.vertices().contains(source) {
        return Err(GraphError::VertexError("vertex not found in graph".to_string()));
    }
    let mut order: Vec<usize> = Vec::new();
    order.push(source);
    let mut visited = VertexSet::new();
    visited.insert(source);
    let mut es: Vec<(usize, usize)> = Vec::new();
    let mut head: usize = 0;
    proof {
        lemma_reach_self(g, source);
        assert(order@.len() == 1 && order@[0] == source);
        assert(order@.contains(source));
        assert forall|v: usize| order@.to_set().contains(v) implies v == source by {
            let k = choose|k: int| 0 <= k < order@.len() && order@[k] == v;
        }
        assert(visited@ =~= order@.to_set());
        lemma_order_fits(g, order@);
        assert(es@.to_set() =~= Set::new(
            |e: (usize, usize)| order@.take(head as int).to_set().contains(e.0) && g.gadj(
                e.0,
            ).contains(e.1),
        ));
    }
    while head < order.len()
        invariant
            g.gwf(),
            g.gverts().contains(source),
            visited.wf(),
            order@.no_duplicates(),
            order@.len() >= 1,
            order@[0] == source,
            forall|k: int| 0 <= k < order@.len() ==> g.gverts().contains(#[trigger] order@[k]),
            visited@ == order@.to_set(),
            head <= order@.len(),
            order@.len() <= g.gverts().len(),
            es@.no_duplicates(),
            forall|i: int| 0 <= i < es@.len() ==> g.gedge((#[trigger] es@[i]).0, es@[i].1),
            es@.to_set() == Set::new(
                |e: (usize, usize)| order@.take(head as int).to_set().contains(e.0) && g.gadj(
                    e.0,
                ).contains(e.1),
            ),
            forall|v: usize|
                #[trigger] visited@.contains(v) ==> crate::reach::spec_reachable(g, source, v),
            forall|k: int| 0 <= k < head ==> g.gadj(#[trigger] order@[k]).subset_of(visited@),
        decreases g.gverts().len() - head,
    {
        let p = order[head];
        proof {
            g.lemma_gwf();
        }
        let adj = match g.adjacent(&p) {
            Ok(s) => s,
            Err(_) => {
                proof {
                    assert(order@.to_set().contains(order@[head as int]));
                    assert(false);
                }
                return Err(GraphError::VertexError("vertex not found in graph".to_string()));
            },
        };
        let ghost es_start = es@;
        proof {
            assert forall|i: int| 0 <= i < es_start.len() implies order@.take(
                head as int,
            ).to_set().contains((#[trigger] es_start[i]).0) by {
                assert(es@.to_set().contains(es@[i]));
            }
        }
        let mut idx: usize = 0;
        while idx < adj.items.len()
            invariant
                g.gwf(),
                g.gverts().contains(source),
                adj.wf(),
                adj@ == g.gadj(p),
                head < order@.len(),
                p == order@[head as int],
                visited.wf(),
                order@.no_duplicates(),
                order@.len() >= 1,
                order@[0] == source,
                forall|k: int| 0 <= k < order@.len() ==> g.gverts().contains(#[trigger] order@[k]),
                visited@ == order@.to_set(),
                idx <= adj.items@.len(),
                order@.len() <= g.gverts().len(),
                es@.len() == es_start.len() + idx,
                forall|i: int| 0 <= i < es_start.len() ==> (#[trigger] es@[i]) == es_start[i],
                forall|m: int|
                    es_start.len() <= m < es@.len() ==> (#[trigger] es@[m]) == (
                    p,
                    adj.items@[m - es_start.len()],
                ),
                forall|i: int|
                    0 <= i < es_start.len() ==> order@.take(head as int).to_set().contains(
                        (#[trigger] es_start[i]).0,
                    ),
                es@.no_duplicates(),
                forall|i: int| 0 <= i < es@.len() ==> g.gedge((#[trigger] es@[i]).0, es@[i].1),
                es_start.to_set() == Set::new(
                    |e: (usize, usize)| order@.take(head as int).to_set().contains(e.0) && g.gadj(
                        e.0,
                    ).contains(e.1),
                ),
                forall|v: usize|
                    #[trigger] visited@.contains(v) ==> crate::reach::spec_reachable(g, source, v),
                forall|k: int| 0 <= k < head ==> g.gadj(#[trigger] order@[k]).subset_of(visited@),
                forall|j: int| 0 <= j < idx ==> visited@.contains(#[trigger] adj.items@[j]),
            decreases adj.items@.len() - idx,
        {
            let x = adj.items[idx];
            proof {
                g.lemma_gwf();
                assert(adj.items@.contains(x));
                assert(g.gadj(p).contains(x));
                assert(g.gverts().contains(x) && g.gedge(p, x));
                assert(!order@.take(head as int).to_set().contains(p)) by {
                    if order@.take(head as int).to_set().contains(p) {
                        let j = choose|j: int| 0 <= j < head && order@.take(head as int)[j] == p;
                        assert(order@[j] == order@[head as int]);
                    }
                }
                let ghost e_new = (p, x);
                assert(!es@.contains(e_new)) by {
                    if es@.contains(e_new) {
                        let m = choose|m: int| 0 <= m < es@.len() && es@[m] == e_new;
                        if m < es_start.len() {
                            assert(order@.take(head as int).to_set().contains(es_start[m].0));
                        } else {
                            assert(adj.items@[m - es_start.len()] == x);
                            assert(adj.items@[idx as int] == x);
                            assert(m - es_start.len() < idx);
                        }
                    }
                }
                crate::store::lemma_seq_push_no_duplicates(es@, e_new);
            }
            es.push((p, x));
            if !visited.contains(x) {
                proof {
                    assert(!order@.contains(x));
                    crate::store::lemma_seq_push_no_duplicates(order@, x);
                    assert(visited@.contains(p));
                    lemma_reach_step(g, source, p, x);
                }
                let ghost order0 = order@;
                visited.insert(x);
                order.push(x);
                proof {
                    broadcast use vstd::seq_lib::lemma_seq_contains_after_push;

                    assert(visited@ =~= order@.to_set());
                    assert(order@.take(head as int) =~= order0.take(head as int));
                    lemma_order_fits(g, order@);
                }
            }
            idx = idx + 1;
        }
        proof {
            assert forall|y: usize| g.gadj(order@[head as int]).contains(y) implies visited@.contains(
                y,
            ) by {
                assert(adj@.contains(y));
                assert(adj.items@.contains(y));
                let j = choose|j: int| 0 <= j < adj.items@.len() && adj.items@[j] == y;
                assert(visited@.contains(adj.items@[j]));
            }
            assert(order@.take(head + 1) == order@.take(head as int).push(order@[head as int]));
            broadcast use vstd::seq_lib::lemma_seq_contains_after_push;

            assert(es@.to_set() =~= Set::new(
                |e: (usize, usize)| order@.take(head + 1).to_set().contains(e.0) && g.gadj(
                    e.0,
                ).contains(e.1),
            )) by {
                assert forall|e: (usize, usize)| es@.to_set().contains(e) implies order@.take(
                    head + 1,
                ).to_set().contains(e.0) && g.gadj(e.0).contains(e.1) by {
                    let m = choose|m: int| 0 <= m < es@.len() && es@[m] == e;
                    if m < es_start.len() {
                        assert(es_start.to_set().contains(es_start[m]));
                    } else {
                        assert(e.0 == p);
                        assert(adj.items@.contains(e.1));
                        assert(adj@.contains(e.1));
                    }
                }
                assert forall|e: (usize, usize)|
                    order@.take(head + 1).to_set().contains(e.0) && g.gadj(e.0).contains(
                        e.1,
                    ) implies es@.to_set().contains(e) by {
                    if order@.take(head as int).to_set().contains(e.0) {
                        assert(es_start.to_set().contains(e));
                        let m = choose|m: int| 0 <= m < es_start.len() && es_start[m] == e;
                        assert(es@[m] == e);
                        assert(es@.contains(e));
                    } else {
                        assert(e.0 == p);
                        assert(adj.items@.contains(e.1));
                        let j = choose|j: int|
                            0 <= j < adj.items@.len() && adj.items@[j] == e.1;
                        assert(es@[es_start.len() + j] == (p, adj.items@[j]));
                        assert(es@.contains(e));
                    }
                }
            }
        }
        head = head + 1;
    }
    proof {
        assert forall|v: usize|
            crate::reach::spec_reachable(g, source, v) implies visited@.contains(v) by {
            assert forall|u: usize| visited@.contains(u) implies #[trigger] g.gadj(u).subset_of(
                visited@,
            ) by {
                let k = choose|k: int| 0 <= k < order@.len() && order@[k] == u;
                assert(g.gadj(order@[k]).subset_of(visited@));
            }
            lemma_reach_in_closed(g, visited@, source, v);
        }
        assert(order@.take(head as int) == order@);
        assert(es@.to_set() =~= Set::new(
            |e: (usize, usize)|
                crate::reach::spec_reachable(g, source, e.0) && g.gadj(e.0).contains(e.1),
        ));
    }
    Ok(es)
}

/// For every vertex reachable from `source`, one shortest (minimum
/// hop-count) path from the source, as an ordered vertex sequence.
#[verifier::spinoff_prover]
#[verifier::rlimit(100)]
pub fn single_shortest_path<G: GraphAny>(g: &G, source: usize) -> (r: Result<
    VecMap<Vec<usize>>,
    GraphError,
>)
    requires
        g.gwf(),
    ensures
        match r {
            Ok(m) => g.gverts().contains(source) && m.wf() && m@.dom() == Set::new(
                |v: usize| crate::reach::spec_reachable(g, source, v),
            ) && (forall|v: usize|
                #[trigger] m@.contains_key(v) ==> is_walk(g, m@[v]@) && m@[v]@[0] == source
                    && m@[v]@.last() == v) && (forall|v: usize, p: Seq<usize>|
                m@.contains_key(v) && is_walk(g, p) && p[0] == source && p.last() == v
                    ==> (#[trigger] m@[v])@.len() <= #[trigger] p.len()),
            Err(e) => e is VertexError && !g.gverts().contains(source),
        },
{
    proof {
        g.lemma_gwf();
    }
    if !g.vertices().contains(source) {
        return Err(GraphError::VertexError("vertex not found in graph".to_string()));
    }
    let mut order: Vec<usize> = Vec::new();
    order.push(source);
    let mut visited = VertexSet::new();
    visited.insert(source);
    let mut m: VecMap<Vec<usize>> = VecMap::new();
    let mut sp: Vec<usize> = Vec::new();
    sp.push(source);
    proof {
        assert(sp@ =~= seq![source]);
        assert(is_walk(g, sp@));
    }
    m.insert(source, sp);
    let mut head: usize = 0;
    proof {
        lemma_reach_self(g, source);
        assert(order@.len() == 1 && order@[0] == source);
        assert(order@.contains(source));
        assert forall|v: usize| order@.to_set().contains(v) implies v == source by {
            let k = choose|k: int| 0 <= k < order@.len() && order@[k] == v;
        }
        assert(visited@ =~= order@.to_set());
        lemma_order_fits(g, order@);
        assert(m@.dom() =~= visited@);
    }
    while head < order.len()
        invariant
            g.gwf(),
            g.gverts().contains(source),
            visited.wf(),
            m.wf(),
            order@.no_duplicates(),
            order@.len() >= 1,
            order@[0] == source,
            forall|k: int| 0 <= k < order@.len() ==> g.gverts().contains(#[trigger] order@[k]),
            visited@ == order@.to_set(),
            head <= order@.len(),
            order@.len() <= g.gverts().len(),
            m@.dom() == visited@,
            forall|v: usize|
                #[trigger] m@.contains_key(v) ==> is_walk(g, m@[v]@) && m@[v]@[0] == source
                    && m@[v]@.last() == v,
            m@[source]@.len() == 1,
            forall|k1: int, k2: int|
                0 <= k1 <= k2 < order@.len() ==> (#[trigger] m@[order@[k1]])@.len()
                    <= (#[trigger] m@[order@[k2]])@.len(),
            head < order@.len() ==> m@[order@.last()]@.len() <= m@[order@[head as int]]@.len() + 1,
            forall|v: usize|
                #[trigger] visited@.contains(v) ==> crate::reach::spec_reachable(g, source, v),
            forall|k: int, x: usize|
                0 <= k < head && #[trigger] g.gadj(order@[k]).contains(x) ==> visited@.contains(x)
                    && m@[x]@.len() <= m@[order@[k]]@.len() + 1,
        decreases g.gverts().len() - head,
    {
        let p = order[head];
        proof {
            g.lemma_gwf();
        }
        let plen = match m.get(p) {
            Some(pp) => pp.len(),
            None => {
                proof {
                    assert(order@.to_set().contains(order@[head as int]));
                    assert(false);
                }
                return Err(GraphError::VertexError("vertex not found in graph".to_string()));
            },
        };
        let adj = match g.adjacent(&p) {
            Ok(s) => s,
            Err(_) => {
                proof {
                    assert(order@.to_set().contains(order@[head as int]));
                    assert(false);
                }
                return Err(GraphError::VertexError("vertex not found in graph".to_string()));
            },
        };
        let mut idx: usize = 0;
        while idx < adj.items.len()
            invariant
                g.gwf(),
                g.gverts().contains(source),
                adj.wf(),
                adj@ == g.gadj(p),
                head < order@.len(),
                p == order@[head as int],
                visited.wf(),
                m.wf(),
                order@.no_duplicates(),
                order@.len() >= 1,
                order@[0] == source,
                forall|k: int| 0 <= k < order@.len() ==> g.gverts().contains(#[trigger] order@[k]),
                visited@ == order@.to_set(),
                idx <= adj.items@.len(),
                order@.len() <= g.gverts().len(),
                m@.dom() == visited@,
                plen == m@[p]@.len(),
                forall|v: usize|
                    #[trigger] m@.contains_key(v) ==> is_walk(g, m@[v]@) && m@[v]@[0] == source
                        && m@[v]@.last() == v,
                m@[source]@.len() == 1,
                forall|k1: int, k2: int|
                    0 <= k1 <= k2 < order@.len() ==> (#[trigger] m@[order@[k1]])@.len()
                        <= (#[trigger] m@[order@[k2]])@.len(),
                m@[order@.last()]@.len() <= m@[order@[head as int]]@.len() + 1,
                forall|v: usize|
                    #[trigger] visited@.contains(v) ==> crate::reach::spec_reachable(g, source, v),
                forall|k: int, x: usize|
                    0 <= k < head && #[trigger] g.gadj(order@[k]).contains(x) ==> visited@.contains(
                        x,
                    ) && m@[x]@.len() <= m@[order@[k]]@.len() + 1,
                forall|j: int|
                    0 <= j < idx ==> visited@.contains(#[trigger] adj.items@[j])
                        && m@[adj.items@[j]]@.len() <= m@[p]@.len() + 1,
            decreases adj.items@.len() - idx,
        {
            let x = adj.items[idx];
            proof {
                g.lemma_gwf();
                assert(adj.items@.contains(x));
                assert(g.gadj(p).contains(x));
                assert(g.gverts().contains(x) && g.gedge(p, x));
            }
            if !visited.contains(x) {
                proof {
                    assert(!order@.contains(x));
                    crate::store::lemma_seq_push_no_duplicates(order@, x);
                    assert(visited@.contains(p));
                    lemma_reach_step(g, source, p, x);
                }
                let pp = match m.get(p) {
                    Some(pp) => pp,
                    None => {
                        proof {
                            assert(false);
                        }
                        return Err(
                            GraphError::VertexError("vertex not found in graph".to_string()),
                        );
                    },
                };
                let mut path = crate::store::copy_vec(pp);
                path.push(x);
                proof {
                    assert(path@.drop_last() == m@[p]@);
                    assert(is_walk(g, path@)) by {
                        assert forall|i: int| 0 <= i < path@.len() - 1 implies #[trigger] g.gadj(
                            path@[i],
                        ).contains(path@[i + 1]) by {
                            if i < path@.len() - 2 {
                                assert(g.gadj(m@[p]@[i]).contains(m@[p]@[i + 1]));
                            } else {
                                assert(path@[i] == m@[p]@.last() && path@[i + 1] == x);
                            }
                        }
                    }
                }
                let ghost order0 = order@;
                let ghost m0 = m@;
                visited.insert(x);
                m.insert(x, path);
                order.push(x);
                proof {
                    broadcast use vstd::seq_lib::lemma_seq_contains_after_push;

                    assert(visited@ =~= order@.to_set());
                    assert(m@.dom() =~= visited@);
                    assert(forall|k: int|
                        0 <= k < order0.len() ==> #[trigger] order@[k] == order0[k]);
                    assert(order@[order0.len() as int] == x);
                    assert forall|k: int| 0 <= k < order0.len() implies m@[#[trigger] order@[k]]
                        == m0[order0[k]] by {
                        assert(order0[k] != x);
                    }
                    assert(m@[x]@.len() == m0[p]@.len() + 1);
                    assert forall|k1: int, k2: int|
                        0 <= k1 <= k2 < order@.len() implies (#[trigger] m@[order@[k1]])@.len()
                        <= (#[trigger] m@[order@[k2]])@.len() by {
                        if k2 == order0.len() {
                            if k1 < order0.len() {
                                assert(m0[order0[k1]]@.len() <= m0[order0.last()]@.len());
                                assert(m0[order0.last()]@.len() <= m0[order0[head as int]]@.len()
                                    + 1);
                            }
                        }
                    }
                    lemma_order_fits(g, order@);
                }
            }
            idx = idx + 1;
        }
        proof {
            assert forall|y: usize|
                g.gadj(order@[head as int]).contains(y) implies visited@.contains(y)
                && m@[y]@.len() <= m@[order@[head as int]]@.len() + 1 by {
                assert(adj@.contains(y));
                assert(adj.items@.contains(y));
                let j = choose|j: int| 0 <= j < adj.items@.len() && adj.items@[j] == y;
                assert(visited@.contains(adj.items@[j]) && m@[adj.items@[j]]@.len() <= m@[p]@.len()
                    + 1);
            }
            if head + 1 < order@.len() {
                assert(m@[order@[head as int]]@.len() <= m@[order@[head + 1]]@.len());
            }
        }
        head = head + 1;
    }
    proof {
        assert forall|u: usize| visited@.contains(u) implies #[trigger] g.gadj(u).subset_of(
            visited@,
        ) by {
            let k = choose|k: int| 0 <= k < order@.len() && order@[k] == u;
            assert forall|x: usize| g.gadj(u).contains(x) implies visited@.contains(x) by {
                assert(g.gadj(order@[k]).contains(x));
            }
        }
        assert forall|v: usize|
            crate::reach::spec_reachable(g, source, v) implies visited@.contains(v) by {
            lemma_reach_in_closed(g, visited@, source, v);
        }
        assert(m@.dom() =~= Set::new(|v: usize| crate::reach::spec_reachable(g, source, v)));
        assert forall|v: usize, p: Seq<usize>|
            m@.contains_key(v) && is_walk(g, p) && p[0] == source && p.last() == v implies (
        #[trigger] m@[v])@.len() <= #[trigger] p.len() by {
            lemma_bfs_levels(g, m@, source, visited@, p);
        }
    }
    Ok(m)
}

/// In a breadth-first labelling closed under adjacency, the stored path of a
/// walk's endpoint is no longer than the walk.
proof fn lemma_bfs_levels<G: GraphAny>(
    g: &G,
    m: Map<usize, Vec<usize>>,
    source: usize,
    vis: Set<usize>,
    p: Seq<usize>,
)
    requires
        m.dom() == vis,
        vis.contains(source),
        m[source]@.len() == 1,
        forall|k: usize, x: usize|
            vis.contains(k) && #[trigger] g.gadj(k).contains(x) ==> vis.contains(x) && m[x]@.len()
                <= m[k]@.len() + 1,
        is_walk(g, p),
        p[0] == source,
    ensures
        vis.contains(p.last()),
        m[p.last()]@.len() <= p.len(),
    decreases p.len(),
{
    if p.len() <= 1 {
        assert(p.last() == source);
    } else {
        let q = p.drop_last();
        assert forall|i: int| 0 <= i < q.len() - 1 implies #[trigger] g.gadj(q[i]).contains(
            q[i + 1],
        ) by {
            assert(g.gadj(p[i]).contains(p[i + 1]));
        }
        assert(is_walk(g, q));
        lemma_bfs_levels(g, m, source, vis, q);
        assert(g.gadj(p[p.len() - 2]).contains(p[p.len() - 1]));
        assert(q.last() == p[p.len() - 2]);
    }
}

} // verus!
