//! Walks and reachability over the graph capability, with the lemmas the
//! traversal and shortest-path algorithms rest on.

use crate::iface::GraphAny;
use vstd::prelude::*;

verus! {

/// A walk: a nonempty vertex sequence that starts at a vertex and whose every
/// step follows the graph's adjacency.
pub open spec fn is_walk<G: GraphAny>(g: &G, p: Seq<usize>) -> bool {
    &&& p.len() >= 1
    &&& g.gverts().contains(p[0])
    &&& forall|i: int| #![trigger p[i]] 0 <= i < p.len() - 1 ==> g.gadj(p[i]).contains(p[i + 1])
}

/// Whether `v` can be reached from `s` along adjacency steps.
pub open spec fn spec_reachable<G: GraphAny>(g: &G, s: usize, v: usize) -> bool {
    exists|p: Seq<usize>| is_walk(g, p) && p[0] == s && p.last() == v
}

/// The total weight of a walk: the sum of the weights of its steps.
pub open spec fn walk_weight<G: GraphAny>(g: &G, p: Seq<usize>) -> int
    decreases p.len(),
{
    if p.len() <= 1 {
        0
    } else {
        walk_weight(g, p.drop_last()) + g.gweight(p[p.len() - 2], p[p.len() - 1])
    }
}

/// Every vertex of a walk is a vertex of the graph.
pub proof fn lemma_walk_vertices<G: GraphAny>(g: &G, p: Seq<usize>)
    requires
        g.gwf(),
        is_walk(g, p),
    ensures
        forall|i: int| 0 <= i < p.len() ==> g.gverts().contains(#[trigger] p[i]),
{
    g.lemma_gwf();
    assert forall|i: int| 0 <= i < p.len() implies g.gverts().contains(#[trigger] p[i]) by {
        if i > 0 {
            assert(g.gadj(p[i - 1]).contains(p[i]));
        }
    }
}

/// A vertex reaches itself.
pub proof fn lemma_reach_self<G: GraphAny>(g: &G, s: usize)
    requires
        g.gverts().contains(s),
    ensures
        spec_reachable(g, s, s),
{
    let p = seq![s];
    assert(is_walk(g, p) && p[0] == s && p.last() == s);
}

/// Reachability extends along one adjacency step.
pub proof fn lemma_reach_step<G: GraphAny>(g: &G, s: usize, u: usize, v: usize)
    requires
        spec_reachable(g, s, u),
        g.gadj(u).contains(v),
    ensures
        spec_reachable(g, s, v),
{
    let p = choose|p: Seq<usize>| is_walk(g, p) && p[0] == s && p.last() == u;
    let q = p.push(v);
    assert forall|i: int| 0 <= i < q.len() - 1 implies #[trigger] g.gadj(q[i]).contains(
        q[i + 1],
    ) by {
        if i < p.len() - 1 {
            assert(g.gadj(p[i]).contains(p[i + 1]));
        } else {
            assert(q[i] == u && q[i + 1] == v);
        }
    }
    assert(is_walk(g, q) && q[0] == s && q.last() == v);
}

/// A set that holds the first vertex of a walk and is closed under adjacency
/// holds the walk's last vertex.
pub proof fn lemma_walk_in_closed<G: GraphAny>(g: &G, c: Set<usize>, p: Seq<usize>)
    requires
        is_walk(g, p),
        c.contains(p[0]),
        forall|u: usize| c.contains(u) ==> #[trigger] g.gadj(u).subset_of(c),
    ensures
        c.contains(p.last()),
    decreases p.len(),
{
    if p.len() > 1 {
        let q = p.drop_last();
        assert forall|i: int| 0 <= i < q.len() - 1 implies #[trigger] g.gadj(q[i]).contains(
            q[i + 1],
        ) by {
            assert(g.gadj(p[i]).contains(p[i + 1]));
        }
        assert(is_walk(g, q));
        lemma_walk_in_closed(g, c, q);
        assert(c.contains(p[p.len() - 2]));
        assert(g.gadj(p[p.len() - 2]).contains(p[p.len() - 1]));
        assert(g.gadj(p[p.len() - 2]).subset_of(c));
        assert(c.contains(p[p.len() - 1]));
    } else {
        assert(p.last() == p[0]);
    }
}

/// Every vertex reachable from `s` lies in any set that holds `s` and is
/// closed under adjacency.
pub proof fn lemma_reach_in_closed<G: GraphAny>(g: &G, c: Set<usize>, s: usize, v: usize)
    requires
        spec_reachable(g, s, v),
        c.contains(s),
        forall|u: usize| c.contains(u) ==> #[trigger] g.gadj(u).subset_of(c),
    ensures
        c.contains(v),
{
    let p = choose|p: Seq<usize>| is_walk(g, p) && p[0] == s && p.last() == v;
    lemma_walk_in_closed(g, c, p);
}

/// Reachability is transitive.
pub proof fn lemma_reach_trans<G: GraphAny>(g: &G, s: usize, u: usize, v: usize)
    requires
        spec_reachable(g, s, u),
        spec_reachable(g, u, v),
    ensures
        spec_reachable(g, s, v),
{
    let p = choose|p: Seq<usize>| is_walk(g, p) && p[0] == s && p.last() == u;
    let q = choose|q: Seq<usize>| is_walk(g, q) && q[0] == u && q.last() == v;
    let c = p + q.drop_first();
    assert(c.len() == p.len() + q.len() - 1);
    assert(c[0] == p[0]);
    assert(c.last() == if q.len() == 1 {
        p.last()
    } else {
        q.last()
    });
    assert forall|i: int| 0 <= i < c.len() - 1 implies #[trigger] g.gadj(c[i]).contains(
        c[i + 1],
    ) by {
        if i < p.len() - 1 {
            assert(c[i] == p[i] && c[i + 1] == p[i + 1]);
            assert(g.gadj(p[i]).contains(p[i + 1]));
        } else if i == p.len() - 1 {
            assert(c[i] == p.last() && q[0] == u);
            if q.len() > 1 {
                assert(c[i + 1] == q.drop_first()[0]);
                assert(q.drop_first()[0] == q[1]);
                assert(g.gadj(q[0]).contains(q[1]));
            }
        } else {
            let j = i - p.len();
            assert(c[i] == q.drop_first()[j] && c[i + 1] == q.drop_first()[j + 1]);
            assert(q.drop_first()[j] == q[j + 1] && q.drop_first()[j + 1] == q[j + 2]);
            assert(g.gadj(q[j + 1]).contains(q[j + 2]));
        }
    }
    assert(is_walk(g, c) && c[0] == s && c.last() == v);
}

/// Where adjacency is symmetric, reachability is too.
pub proof fn lemma_reach_sym<G: GraphAny>(g: &G, s: usize, v: usize)
    requires
        g.gwf(),
        spec_reachable(g, s, v),
        forall|a: usize, b: usize| #[trigger] g.gadj(a).contains(b) ==> g.gadj(b).contains(a),
    ensures
        spec_reachable(g, v, s),
{
    let p = choose|p: Seq<usize>| is_walk(g, p) && p[0] == s && p.last() == v;
    let q = p.reverse();
    lemma_walk_vertices(g, p);
    assert(q[0] == p.last() && q.last() == p[0]);
    assert(g.gverts().contains(q[0]));
    assert forall|i: int| 0 <= i < q.len() - 1 implies #[trigger] g.gadj(q[i]).contains(
        q[i + 1],
    ) by {
        let n = p.len();
        assert(q[i] == p[n - 1 - i] && q[i + 1] == p[n - 2 - i]);
        assert(g.gadj(p[n - 2 - i]).contains(p[n - 1 - i]));
    }
    assert(is_walk(g, q) && q[0] == v && q.last() == s);
}

} // verus!
