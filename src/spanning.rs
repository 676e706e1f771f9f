use crate::edge::Edge;
use vstd::prelude::*;

verus! {

/// The vertices that the edges of `es` join to `x`, `x` included.
pub open spec fn component(es: Seq<Edge>, x: u32) -> Set<u32>
    decreases es.len(),
{
    if es.len() == 0 {
        set![x]
    } else {
        let t = es.drop_last();
        let e = es.last();
        let c = component(t, x);
        if c.contains(e.u) || c.contains(e.v) {
            component(t, e.u) + component(t, e.v)
        } else {
            c
        }
    }
}

/// Some path of edges of `es` leads from `x` to `y`.
pub open spec fn connected(es: Seq<Edge>, x: u32, y: u32) -> bool {
    component(es, x).contains(y)
}

/// The edges that the greedy pass keeps: each edge in turn, unless the
/// edges kept before it already connect its ends.
pub open spec fn greedy_forest(es: Seq<Edge>) -> Seq<Edge>
    decreases es.len(),
{
    if es.len() == 0 {
        Seq::empty()
    } else {
        let t = greedy_forest(es.drop_last());
        let e = es.last();
        if connected(t, e.u, e.v) {
            t
        } else {
            t.push(e)
        }
    }
}

/// The ends of the edges of `es`.
pub open spec fn vertices(es: Seq<Edge>) -> Set<u32>
    decreases es.len(),
{
    if es.len() == 0 {
        Set::empty()
    } else {
        vertices(es.drop_last()).insert(es.last().u).insert(es.last().v)
    }
}

/// Every two vertices of `es` are connected by its edges.
pub open spec fn is_connected(es: Seq<Edge>) -> bool {
    forall|x: u32, y: u32|
        vertices(es).contains(x) && vertices(es).contains(y) ==> connected(es, x, y)
}

/// The components of `t` that the vertices `vs` lie in.
pub open spec fn components(t: Seq<Edge>, vs: Set<u32>) -> Set<Set<u32>> {
    vs.map(|x: u32| component(t, x))
}

proof fn lemma_connected_transitive(t: Seq<Edge>, x: u32, y: u32, z: u32)
    requires
        connected(t, x, y),
        connected(t, y, z),
    ensures
        connected(t, x, z),
{
    lemma_component_equiv(t, x, y);
}

/// The ends of each edge of `es` are connected by `es`.
pub proof fn lemma_edges_connect_ends(es: Seq<Edge>, j: int)
    requires
        0 <= j < es.len(),
    ensures
        connected(es, es[j].u, es[j].v),
    decreases es.len(),
{
    let t = es.drop_last();
    let e = es.last();
    assert(t.push(e) =~= es);
    lemma_component_equiv(t, e.u, e.u);
    lemma_component_equiv(t, e.v, e.v);
    if j < es.len() - 1 {
        lemma_edges_connect_ends(t, j);
        lemma_connected_push(t, e, t[j].u, t[j].v);
    } else {
        lemma_connected_push(t, e, e.u, e.v);
    }
}

/// The greedy forest connects exactly what the whole edge list connects.
pub proof fn lemma_greedy_same_connection(es: Seq<Edge>, x: u32, y: u32)
    ensures
        connected(greedy_forest(es), x, y) == connected(es, x, y),
    decreases es.len(),
{
    if es.len() > 0 {
        let t = es.drop_last();
        let e = es.last();
        let f = greedy_forest(t);
        assert(t.push(e) =~= es);
        lemma_greedy_same_connection(t, x, y);
        lemma_greedy_same_connection(t, x, e.u);
        lemma_greedy_same_connection(t, x, e.v);
        lemma_greedy_same_connection(t, e.u, y);
        lemma_greedy_same_connection(t, e.v, y);
        lemma_greedy_same_connection(t, e.u, e.v);
        lemma_connected_push(t, e, x, y);
        if connected(f, e.u, e.v) {
            if connected(t, x, e.u) && connected(t, e.v, y) {
                lemma_connected_transitive(t, x, e.u, e.v);
                lemma_connected_transitive(t, x, e.v, y);
            }
            if connected(t, x, e.v) && connected(t, e.u, y) {
                lemma_connected_symmetric(t, e.u, e.v);
                lemma_connected_transitive(t, x, e.v, e.u);
                lemma_connected_transitive(t, x, e.u, y);
            }
        } else {
            lemma_connected_push(f, e, x, y);
        }
    }
}

/// No edge of the greedy forest joins two vertices that the edges before it
/// already connect: the forest has no cycle.
pub proof fn lemma_greedy_acyclic(es: Seq<Edge>)
    ensures
        forall|i: int|
            0 <= i < greedy_forest(es).len() ==> !connected(
                #[trigger] greedy_forest(es).take(i),
                greedy_forest(es)[i].u,
                greedy_forest(es)[i].v,
            ),
    decreases es.len(),
{
    if es.len() > 0 {
        let t = es.drop_last();
        let f = greedy_forest(t);
        lemma_greedy_acyclic(t);
        let g = greedy_forest(es);
        assert forall|i: int| 0 <= i < g.len() implies !connected(
            #[trigger] g.take(i),
            g[i].u,
            g[i].v,
        ) by {
            if i < f.len() {
                assert(g.take(i) =~= f.take(i));
                assert(g[i] == f[i]);
                assert(f.take(i) == f.take(i));
            } else {
                assert(g.take(i) =~= f);
            }
        }
    }
}

pub proof fn lemma_vertices_finite(es: Seq<Edge>)
    ensures
        vertices(es).finite(),
        forall|j: int|
            0 <= j < es.len() ==> vertices(es).contains(#[trigger] es[j].u) && vertices(
                es,
            ).contains(es[j].v),
    decreases es.len(),
{
    if es.len() > 0 {
        lemma_vertices_finite(es.drop_last());
        assert forall|j: int| 0 <= j < es.len() implies vertices(es).contains(
            #[trigger] es[j].u,
        ) && vertices(es).contains(es[j].v) by {
            if j < es.len() - 1 {
                assert(es.drop_last()[j] == es[j]);
            }
        }
    }
}

/// The ends of an edge are vertices.
pub proof fn lemma_ends_are_vertices(es: Seq<Edge>, j: int)
    requires
        0 <= j < es.len(),
    ensures
        vertices(es).contains(es[j].u),
        vertices(es).contains(es[j].v),
{
    lemma_vertices_finite(es);
    assert(vertices(es).contains(es[j].u));
}

/// Over a set `vs` of vertices that holds the ends of every edge, the
/// greedy forest and its components account for every vertex: each edge
/// of the forest joins two components into one.
pub proof fn lemma_greedy_count(es: Seq<Edge>, vs: Set<u32>)
    requires
        vs.finite(),
        forall|j: int|
            0 <= j < es.len() ==> vs.contains(#[trigger] es[j].u) && vs.contains(es[j].v),
    ensures
        components(greedy_forest(es), vs).len() + greedy_forest(es).len() == vs.len(),
    decreases es.len(),
{
    if es.len() == 0 {
        let f = |x: u32| component(Seq::<Edge>::empty(), x);
        assert forall|a: u32, b: u32| #[trigger] f(a) == #[trigger] f(b) implies a == b by {
            assert(f(a).contains(a));
        }
        assert(vstd::relations::injective_on(f, vs));
        vstd::set_lib::lemma_map_size(vs, vs.map(f), f);
    } else {
        let t = es.drop_last();
        let e = es.last();
        assert forall|j: int| 0 <= j < t.len() implies vs.contains(#[trigger] t[j].u) && vs.contains(
            t[j].v,
        ) by {
            assert(t[j] == es[j]);
        }
        assert(vs.contains(es[es.len() - 1].u));
        lemma_greedy_count(t, vs);
        let f = greedy_forest(t);
        if !connected(f, e.u, e.v) {
            let a = component(f, e.u);
            let b = component(f, e.v);
            let old_c = components(f, vs);
            let new_c = components(f.push(e), vs);
            lemma_component_equiv(f, e.u, e.u);
            lemma_component_equiv(f, e.v, e.v);
            assert(f.push(e).drop_last() =~= f);
            assert(old_c.contains(a));
            assert(old_c.contains(b));
            assert(a != b);
            let rest = old_c.remove(a).remove(b);
            assert(!rest.contains(a + b)) by {
                if rest.contains(a + b) {
                    let z = choose|z: u32| vs.contains(z) && component(f, z) == a + b;
                    lemma_component_equiv(f, z, e.u);
                }
            }
            assert forall|c: Set<u32>| new_c.contains(c) == rest.insert(a + b).contains(c) by {
                if new_c.contains(c) {
                    let x = choose|x: u32| vs.contains(x) && component(f.push(e), x) == c;
                    lemma_component_equiv(f, x, e.u);
                    lemma_component_equiv(f, x, e.v);
                    lemma_component_equiv(f, x, x);
                    assert(old_c.contains(component(f, x)));
                }
                if rest.contains(c) {
                    let z = choose|z: u32| vs.contains(z) && component(f, z) == c;
                    lemma_component_equiv(f, z, e.u);
                    lemma_component_equiv(f, z, e.v);
                    assert(component(f.push(e), z) == c);
                    assert(new_c.contains(component(f.push(e), z)));
                }
                if c == a + b {
                    assert(component(f.push(e), e.u) == a + b);
                    assert(new_c.contains(component(f.push(e), e.u)));
                }
            }
            assert(new_c =~= rest.insert(a + b));
            vs.lemma_map_finite(|x: u32| component(f, x));
        }
    }
}

/// On a connected graph with `n` vertices, the greedy forest has exactly
/// `n - 1` edges, connects every two vertices, and has no cycle.
pub proof fn lemma_spanning_tree_size(es: Seq<Edge>)
    requires
        es.len() > 0,
        is_connected(es),
    ensures
        greedy_forest(es).len() == vertices(es).len() - 1,
        forall|x: u32, y: u32|
            vertices(es).contains(x) && vertices(es).contains(y) ==> connected(
                greedy_forest(es),
                x,
                y,
            ),
{
    let vs = vertices(es);
    let g = greedy_forest(es);
    lemma_vertices_finite(es);
    lemma_greedy_count(es, vs);
    let x0 = es[0].u;
    assert(vs.contains(x0));
    assert forall|x: u32, y: u32| vs.contains(x) && vs.contains(y) implies connected(g, x, y) by {
        lemma_greedy_same_connection(es, x, y);
    }
    assert forall|c: Set<u32>| components(g, vs).contains(c) == (c == component(g, x0)) by {
        if components(g, vs).contains(c) {
            let x = choose|x: u32| vs.contains(x) && component(g, x) == c;
            lemma_greedy_same_connection(es, x0, x);
            lemma_component_equiv(g, x0, x);
        }
        if c == component(g, x0) {
            assert(components(g, vs).contains(component(g, x0)));
        }
    }
    assert(components(g, vs) =~= set![component(g, x0)]);
}

/// `x` lies in its own component, and vertices of one component share it.
pub proof fn lemma_component_equiv(es: Seq<Edge>, x: u32, y: u32)
    ensures
        component(es, x).contains(x),
        connected(es, x, y) ==> component(es, x) == component(es, y),
    decreases es.len(),
{
    if es.len() > 0 {
        let t = es.drop_last();
        let e = es.last();
        lemma_component_equiv(t, x, y);
        lemma_component_equiv(t, x, x);
        lemma_component_equiv(t, y, y);
        lemma_component_equiv(t, e.u, e.u);
        lemma_component_equiv(t, e.v, e.v);
        lemma_component_equiv(t, e.u, y);
        lemma_component_equiv(t, e.v, y);
        lemma_component_equiv(t, x, e.u);
        lemma_component_equiv(t, x, e.v);
    }
}

/// Connection is symmetric.
pub proof fn lemma_connected_symmetric(es: Seq<Edge>, x: u32, y: u32)
    ensures
        connected(es, x, y) == connected(es, y, x),
{
    lemma_component_equiv(es, x, y);
    lemma_component_equiv(es, y, x);
}

/// Adding edge `e` connects `x` and `y` exactly when they were connected,
/// or one was connected to an end of `e` and the other to its other end.
pub proof fn lemma_connected_push(t: Seq<Edge>, e: Edge, x: u32, y: u32)
    ensures
        connected(t.push(e), x, y) == (connected(t, x, y) || (connected(t, x, e.u) && connected(
            t,
            e.v,
            y,
        )) || (connected(t, x, e.v) && connected(t, e.u, y))),
{
    let s = t.push(e);
    assert(s.drop_last() =~= t);
    lemma_component_equiv(t, x, y);
    lemma_component_equiv(t, x, e.u);
    lemma_component_equiv(t, x, e.v);
    lemma_component_equiv(t, e.u, y);
    lemma_component_equiv(t, e.v, y);
    lemma_component_equiv(t, e.u, e.u);
    lemma_component_equiv(t, e.v, e.v);
}

/// What `es` joins to `x` is `x` itself or vertices of `es`.
pub proof fn lemma_component_in_vertices(es: Seq<Edge>, x: u32)
    ensures
        forall|y: u32| #[trigger] component(es, x).contains(y) ==> y == x || vertices(es).contains(y),
    decreases es.len(),
{
    if es.len() > 0 {
        let t = es.drop_last();
        let e = es.last();
        lemma_component_in_vertices(t, x);
        lemma_component_in_vertices(t, e.u);
        lemma_component_in_vertices(t, e.v);
        let vs = vertices(es);
        assert(vs == vertices(t).insert(e.u).insert(e.v));
        assert forall|y: u32| #[trigger] component(es, x).contains(y) implies y == x || vs.contains(
            y,
        ) by {
            if component(t, x).contains(e.u) || component(t, x).contains(e.v) {
                assert(component(es, x) == component(t, e.u) + component(t, e.v));
            } else {
                assert(component(es, x) == component(t, x));
            }
        }
    }
}

} // verus!
