use crate::edge::Edge;
use crate::graph::{descending_above, sorted_desc, weight_is, weight_sum};
use crate::spanning::{
    component, components, connected, greedy_forest, lemma_component_equiv,
    lemma_component_in_vertices, lemma_connected_symmetric,
    lemma_connected_push, lemma_edges_connect_ends, lemma_ends_are_vertices, lemma_greedy_count,
    lemma_greedy_same_connection, lemma_vertices_finite, vertices,
};
use vstd::prelude::*;

verus! {

/// Weights do not grow along `es`.
pub open spec fn weights_descending(es: Seq<Edge>) -> bool {
    forall|i: int, j: int| 0 <= i < j < es.len() ==> es[i].w >= es[j].w
}

/// No edge of `s` joins two vertices that the edges before it connect.
pub open spec fn is_forest(s: Seq<Edge>) -> bool {
    forall|i: int| 0 <= i < s.len() ==> !connected(#[trigger] s.take(i), s[i].u, s[i].v)
}

/// `s` is a spanning tree of `es`: a forest of edges of `es` that connects
/// every two vertices of `es`.
pub open spec fn is_spanning_tree(s: Seq<Edge>, es: Seq<Edge>) -> bool {
    &&& is_forest(s)
    &&& forall|i: int| 0 <= i < s.len() ==> es.contains(#[trigger] s[i])
    &&& forall|x: u32, y: u32|
        vertices(es).contains(x) && vertices(es).contains(y) ==> connected(s, x, y)
}

/// `s` is a spanning forest of `es`: a forest of edges of `es` that connects
/// every two vertices that `es` connects.
pub open spec fn is_spanning_forest(s: Seq<Edge>, es: Seq<Edge>) -> bool {
    &&& is_forest(s)
    &&& forall|i: int| 0 <= i < s.len() ==> es.contains(#[trigger] s[i])
    &&& forall|x: u32, y: u32| connected(es, x, y) ==> connected(s, x, y)
}

/// A spanning tree of `es` is a spanning forest of `es`.
pub proof fn lemma_tree_is_spanning_forest(s: Seq<Edge>, es: Seq<Edge>)
    requires
        is_spanning_tree(s, es),
    ensures
        is_spanning_forest(s, es),
{
    assert forall|x: u32, y: u32| connected(es, x, y) implies connected(s, x, y) by {
        if x == y {
            lemma_component_equiv(s, x, x);
        } else {
            lemma_component_in_vertices(es, x);
            lemma_connected_symmetric(es, x, y);
            lemma_component_in_vertices(es, y);
        }
    }
}

pub open spec fn weight_at_least(t: int) -> spec_fn(Edge) -> bool {
    |e: Edge| e.w >= t
}

/// For each threshold from `t` to 127, the number of edges of `es` of at
/// least that weight, summed.
pub open spec fn layers(es: Seq<Edge>, t: int) -> int
    decreases 128 - t,
{
    if t > 127 {
        0
    } else {
        es.filter(weight_at_least(t)).len() + layers(es, t + 1)
    }
}

proof fn lemma_forest_drop_last(s: Seq<Edge>)
    requires
        is_forest(s),
        s.len() > 0,
    ensures
        is_forest(s.drop_last()),
        !connected(s.drop_last(), s.last().u, s.last().v),
{
    let t = s.drop_last();
    assert(s.take(s.len() - 1) =~= t);
    assert forall|i: int| 0 <= i < t.len() implies !connected(#[trigger] t.take(i), t[i].u, t[i].v) by {
        assert(t.take(i) =~= s.take(i));
        assert(!connected(s.take(i), s[i].u, s[i].v));
    }
}

/// The greedy pass keeps every edge of a forest.
proof fn lemma_greedy_of_forest(s: Seq<Edge>)
    requires
        is_forest(s),
    ensures
        greedy_forest(s) == s,
    decreases s.len(),
{
    if s.len() > 0 {
        lemma_forest_drop_last(s);
        lemma_greedy_of_forest(s.drop_last());
        assert(s.drop_last().push(s.last()) =~= s);
    }
}

/// What the edges of `a` connect, `b` connects too, when `b` connects the
/// ends of each edge of `a`.
proof fn lemma_sub_connected(a: Seq<Edge>, b: Seq<Edge>, x: u32, y: u32)
    requires
        forall|i: int| 0 <= i < a.len() ==> connected(b, #[trigger] a[i].u, a[i].v),
        connected(a, x, y),
    ensures
        connected(b, x, y),
    decreases a.len(),
{
    lemma_component_equiv(b, x, x);
    if a.len() > 0 {
        let t = a.drop_last();
        let e = a.last();
        assert(t.push(e) =~= a);
        assert(connected(b, a[a.len() - 1].u, a[a.len() - 1].v));
        assert forall|i: int| 0 <= i < t.len() implies connected(b, #[trigger] t[i].u, t[i].v) by {
            assert(t[i] == a[i]);
        }
        lemma_connected_push(t, e, x, y);
        if connected(t, x, y) {
            lemma_sub_connected(t, b, x, y);
        } else if connected(t, x, e.u) && connected(t, e.v, y) {
            lemma_sub_connected(t, b, x, e.u);
            lemma_sub_connected(t, b, e.v, y);
            lemma_component_equiv(b, x, e.u);
            lemma_component_equiv(b, e.u, e.v);
        } else {
            lemma_sub_connected(t, b, x, e.v);
            lemma_sub_connected(t, b, e.u, y);
            lemma_component_equiv(b, x, e.v);
            lemma_component_equiv(b, e.u, e.v);
            lemma_component_equiv(b, e.u, y);
            lemma_component_equiv(b, e.v, e.v);
        }
    }
}

/// The greedy forest is made of edges of `es`.
proof fn lemma_greedy_from(es: Seq<Edge>)
    ensures
        forall|i: int| 0 <= i < greedy_forest(es).len() ==> es.contains(#[trigger] greedy_forest(es)[i]),
    decreases es.len(),
{
    if es.len() > 0 {
        let t = es.drop_last();
        lemma_greedy_from(t);
        let g = greedy_forest(es);
        assert forall|i: int| 0 <= i < g.len() implies es.contains(#[trigger] g[i]) by {
            if i < greedy_forest(t).len() {
                let j = choose|j: int| 0 <= j < t.len() && t[j] == greedy_forest(t)[i];
                assert(es[j] == t[j]);
            } else {
                assert(es[es.len() - 1] == g[i]);
            }
        }
    }
}

/// On edges sorted by weight, descending, the greedy forest's edges of
/// weight at least `t` are the greedy forest of the edges of weight at
/// least `t`.
proof fn lemma_filter_greedy(es: Seq<Edge>, t: int)
    requires
        weights_descending(es),
    ensures
        greedy_forest(es).filter(weight_at_least(t)) == greedy_forest(es.filter(weight_at_least(t))),
    decreases es.len(),
{
    reveal(Seq::filter);
    if es.len() > 0 {
        let s = es.drop_last();
        let e = es.last();
        assert(weights_descending(s));
        lemma_filter_greedy(s, t);
        if e.w >= t {
            assert forall|i: int| 0 <= i < es.len() implies #[trigger] es[i].w >= t by {}
            lemma_filter_all(es, t);
            lemma_greedy_from(es);
            let g = greedy_forest(es);
            assert forall|i: int| 0 <= i < g.len() implies #[trigger] g[i].w >= t by {
                let j = choose|j: int| 0 <= j < es.len() && es[j] == g[i];
            }
            lemma_filter_all(g, t);
        } else {
            let g = greedy_forest(s);
            assert(greedy_forest(es) == g || greedy_forest(es) == g.push(e));
            assert(g.push(e).drop_last() =~= g);
        }
    }
}

proof fn lemma_filter_all(s: Seq<Edge>, t: int)
    requires
        forall|i: int| 0 <= i < s.len() ==> #[trigger] s[i].w >= t,
    ensures
        s.filter(weight_at_least(t)) == s,
    decreases s.len(),
{
    reveal(Seq::filter);
    if s.len() > 0 {
        let r = s.drop_last();
        assert forall|i: int| 0 <= i < r.len() implies #[trigger] r[i].w >= t by {
            assert(r[i] == s[i]);
        }
        lemma_filter_all(r, t);
        assert(s[s.len() - 1].w >= t);
        assert(r.push(s.last()) =~= s);
    }
}

/// Any part of a forest is a forest.
proof fn lemma_filter_forest(s: Seq<Edge>, t: int)
    requires
        is_forest(s),
    ensures
        is_forest(s.filter(weight_at_least(t))),
    decreases s.len(),
{
    reveal(Seq::filter);
    if s.len() > 0 {
        let r = s.drop_last();
        let e = s.last();
        lemma_forest_drop_last(s);
        lemma_filter_forest(r, t);
        let fr = r.filter(weight_at_least(t));
        if e.w >= t {
            let fs = fr.push(e);
            assert(s.filter(weight_at_least(t)) == fs);
            // The kept edges of `r` are edges of `r`, so they connect no more than `r`.
            r.lemma_filter_len(weight_at_least(t));
            assert forall|i: int| 0 <= i < fr.len() implies connected(r, #[trigger] fr[i].u, fr[i].v) by {
                assert(fr.contains(fr[i]));
                r.lemma_filter_contains_rev(weight_at_least(t), fr[i]);
                let j = lemma_index_of(r, fr[i]);
                lemma_edges_connect_ends(r, j);
            }
            if connected(fr, e.u, e.v) {
                lemma_sub_connected(fr, r, e.u, e.v);
            }
            assert forall|i: int| 0 <= i < fs.len() implies !connected(
                #[trigger] fs.take(i),
                fs[i].u,
                fs[i].v,
            ) by {
                if i < fr.len() {
                    assert(fs.take(i) =~= fr.take(i));
                    assert(!connected(fr.take(i), fr[i].u, fr[i].v));
                } else {
                    assert(fs.take(i) =~= fr);
                }
            }
        }
    }
}

proof fn lemma_index_of(s: Seq<Edge>, e: Edge) -> (j: int)
    requires
        s.contains(e),
    ensures
        0 <= j < s.len(),
        s[j] == e,
{
    choose|j: int| 0 <= j < s.len() && s[j] == e
}

/// Where `p` connects the ends of each edge of `s`, `p` has no more
/// components over `vs` than `s`.
proof fn lemma_components_shrink(s: Seq<Edge>, p: Seq<Edge>, vs: Set<u32>)
    requires
        vs.finite(),
        forall|i: int| 0 <= i < s.len() ==> connected(p, #[trigger] s[i].u, s[i].v),
    ensures
        components(p, vs).len() <= components(s, vs).len(),
{
    let cs = components(s, vs);
    let g = |c: Set<u32>| component(p, choose|x: u32| vs.contains(x) && component(s, x) == c);
    vs.lemma_map_finite(|x: u32| component(s, x));
    assert forall|c: Set<u32>| #[trigger] cs.map(g).contains(c) == components(p, vs).contains(c) by {
        if cs.map(g).contains(c) {
            let d = choose|d: Set<u32>| cs.contains(d) && g(d) == c;
            let x0 = choose|x: u32| vs.contains(x) && component(s, x) == d;
            assert(components(p, vs).contains(component(p, x0)));
        }
        if components(p, vs).contains(c) {
            let y = choose|y: u32| vs.contains(y) && component(p, y) == c;
            let d = component(s, y);
            assert(cs.contains(d));
            let x0 = choose|x: u32| vs.contains(x) && component(s, x) == d;
            lemma_component_equiv(s, y, y);
            lemma_component_equiv(s, x0, y);
            lemma_sub_connected(s, p, x0, y);
            lemma_component_equiv(p, x0, y);
            assert(g(d) == c);
            assert(cs.map(g).contains(g(d)));
        }
    }
    assert(cs.map(g) =~= components(p, vs));
    vstd::set_lib::lemma_map_size_bound(cs, cs.map(g), g);
}

/// The greedy forest of `p` has the components of `p`.
proof fn lemma_components_greedy(p: Seq<Edge>, vs: Set<u32>)
    ensures
        components(greedy_forest(p), vs) == components(p, vs),
{
    assert forall|x: u32| component(greedy_forest(p), x) == component(p, x) by {
        assert forall|y: u32| component(greedy_forest(p), x).contains(y) == component(p, x).contains(
            y,
        ) by {
            lemma_greedy_same_connection(p, x, y);
        }
        assert(component(greedy_forest(p), x) =~= component(p, x));
    }
    assert forall|c: Set<u32>|
        components(greedy_forest(p), vs).contains(c) == components(p, vs).contains(c) by {
        if components(greedy_forest(p), vs).contains(c) {
            let x = choose|x: u32| vs.contains(x) && component(greedy_forest(p), x) == c;
            assert(components(p, vs).contains(component(p, x)));
        }
        if components(p, vs).contains(c) {
            let x = choose|x: u32| vs.contains(x) && component(p, x) == c;
            assert(components(greedy_forest(p), vs).contains(component(greedy_forest(p), x)));
        }
    }
    assert(components(greedy_forest(p), vs) =~= components(p, vs));
}

/// A forest whose edges `p` connects has no more edges than the greedy
/// forest of `p`.
proof fn lemma_forest_rank(s: Seq<Edge>, p: Seq<Edge>, vs: Set<u32>)
    requires
        is_forest(s),
        vs.finite(),
        forall|j: int| 0 <= j < s.len() ==> vs.contains(#[trigger] s[j].u) && vs.contains(s[j].v),
        forall|j: int| 0 <= j < p.len() ==> vs.contains(#[trigger] p[j].u) && vs.contains(p[j].v),
        forall|i: int| 0 <= i < s.len() ==> connected(p, #[trigger] s[i].u, s[i].v),
    ensures
        s.len() <= greedy_forest(p).len(),
{
    lemma_greedy_of_forest(s);
    lemma_greedy_count(s, vs);
    lemma_greedy_count(p, vs);
    lemma_components_greedy(p, vs);
    lemma_components_shrink(s, p, vs);
}

/// Each edge adds one to every threshold up to its weight.
proof fn lemma_layers_push(es: Seq<Edge>, e: Edge, t: int)
    requires
        -127 <= t <= 128,
    ensures
        layers(es.push(e), t) == layers(es, t) + if e.w >= t {
            e.w - t + 1
        } else {
            0
        },
    decreases 128 - t,
{
    reveal(Seq::filter);
    if t <= 127 {
        lemma_layers_push(es, e, t + 1);
        assert(es.push(e).drop_last() =~= es);
    }
}

/// Summing the counts over all thresholds gives the weights, each shifted
/// by 128.
proof fn lemma_layers_sum(es: Seq<Edge>)
    ensures
        layers(es, -127) == weight_sum(es) + 128 * es.len(),
    decreases es.len(),
{
    if es.len() == 0 {
        lemma_layers_empty(es, -127);
    } else {
        let t = es.drop_last();
        lemma_layers_sum(t);
        lemma_layers_push(t, es.last(), -127);
        assert(t.push(es.last()) =~= es);
    }
}

proof fn lemma_layers_empty(es: Seq<Edge>, t: int)
    requires
        es.len() == 0,
    ensures
        layers(es, t) == 0,
    decreases 128 - t,
{
    reveal(Seq::filter);
    if t <= 127 {
        lemma_layers_empty(es, t + 1);
    }
}

proof fn lemma_layers_le(a: Seq<Edge>, b: Seq<Edge>, t: int)
    requires
        forall|k: int|
            t <= k <= 127 ==> #[trigger] a.filter(weight_at_least(k)).len() <= b.filter(
                weight_at_least(k),
            ).len(),
    ensures
        layers(a, t) <= layers(b, t),
    decreases 128 - t,
{
    if t <= 127 {
        lemma_layers_le(a, b, t + 1);
    }
}

/// The stable sort by weight, descending, puts weights in descending order.
pub proof fn lemma_sorted_desc_descending(es: Seq<Edge>)
    ensures
        weights_descending(sorted_desc(es)),
{
    lemma_descending_above(es, -129);
}

proof fn lemma_descending_above(es: Seq<Edge>, w: int)
    requires
        -129 <= w <= 127,
    ensures
        weights_descending(descending_above(es, w)),
        forall|i: int|
            0 <= i < descending_above(es, w).len() ==> #[trigger] descending_above(es, w)[i].w > w,
    decreases 127 - w,
{
    if w < 127 {
        lemma_descending_above(es, w + 1);
        let d = descending_above(es, w + 1);
        let f = es.filter(weight_is(w + 1));
        #[allow(deprecated)]
        es.filter_lemma(weight_is(w + 1));
        let all = d + f;
        assert forall|i: int| 0 <= i < all.len() implies #[trigger] all[i].w > w by {
            if i >= d.len() {
                assert(all[i] == f[i - d.len()]);
            }
        }
        assert forall|i: int, j: int| 0 <= i < j < all.len() implies all[i].w >= all[j].w by {
            if j >= d.len() {
                assert(all[j] == f[j - d.len()]);
                if i >= d.len() {
                    assert(all[i] == f[i - d.len()]);
                } else {
                    assert(all[i] == d[i]);
                }
            } else {
                assert(all[i] == d[i] && all[j] == d[j]);
            }
        }
    }
}

/// On edges sorted by weight, descending, the greedy forest weighs at least
/// as much as any spanning forest of the same edges; on a connected graph,
/// as any spanning tree.
pub proof fn lemma_greedy_maximal(es: Seq<Edge>, tree: Seq<Edge>)
    requires
        weights_descending(es),
        is_spanning_forest(tree, es),
    ensures
        weight_sum(greedy_forest(es)) >= weight_sum(tree),
{
    let g = greedy_forest(es);
    let vs = vertices(es);
    lemma_vertices_finite(es);
    assert forall|j: int| 0 <= j < tree.len() implies vs.contains(#[trigger] tree[j].u) && vs.contains(
        tree[j].v,
    ) by {
        let k = lemma_index_of(es, tree[j]);
        lemma_ends_are_vertices(es, k);
    }
    assert forall|j: int| 0 <= j < tree.len() implies connected(es, #[trigger] tree[j].u, tree[j].v) by {
        let k = lemma_index_of(es, tree[j]);
        lemma_edges_connect_ends(es, k);
    }
    // Both have one edge fewer than there are vertices.
    lemma_greedy_of_forest(tree);
    lemma_greedy_count(tree, vs);
    assert forall|j: int| 0 <= j < es.len() implies vs.contains(#[trigger] es[j].u) && vs.contains(
        es[j].v,
    ) by {
        lemma_ends_are_vertices(es, j);
    }
    lemma_greedy_count(es, vs);
    assert(tree.len() == g.len()) by {
        assert forall|x: u32| component(tree, x) == component(es, x) by {
            assert forall|y: u32| component(tree, x).contains(y) == component(es, x).contains(y) by {
                if connected(tree, x, y) {
                    lemma_sub_connected(tree, es, x, y);
                }
            }
            assert(component(tree, x) =~= component(es, x));
        }
        assert(components(tree, vs) =~= components(es, vs));
        lemma_components_greedy(es, vs);
    }
    // At every threshold the greedy forest has at least as many edges.
    assert forall|k: int|
        -127 <= k <= 127 implies #[trigger] tree.filter(weight_at_least(k)).len() <= g.filter(
            weight_at_least(k),
        ).len() by {
        let p = es.filter(weight_at_least(k));
        let s = tree.filter(weight_at_least(k));
        lemma_filter_greedy(es, k);
        lemma_filter_forest(tree, k);
        #[allow(deprecated)]
        tree.filter_lemma(weight_at_least(k));
        #[allow(deprecated)]
        es.filter_lemma(weight_at_least(k));
        assert forall|j: int| 0 <= j < p.len() implies vs.contains(#[trigger] p[j].u) && vs.contains(
            p[j].v,
        ) by {
            assert(p.contains(p[j]));
            es.lemma_filter_contains_rev(weight_at_least(k), p[j]);
            let i = lemma_index_of(es, p[j]);
            lemma_ends_are_vertices(es, i);
        }
        assert forall|j: int| 0 <= j < s.len() implies vs.contains(#[trigger] s[j].u) && vs.contains(
            s[j].v,
        ) by {
            assert(s.contains(s[j]));
            tree.lemma_filter_contains_rev(weight_at_least(k), s[j]);
            let i = lemma_index_of(tree, s[j]);
            let m = lemma_index_of(es, tree[i]);
            lemma_ends_are_vertices(es, m);
        }
        assert forall|j: int| 0 <= j < s.len() implies connected(p, #[trigger] s[j].u, s[j].v) by {
            assert(s.contains(s[j]));
            tree.lemma_filter_contains_rev(weight_at_least(k), s[j]);
            let i = lemma_index_of(tree, s[j]);
            let m = lemma_index_of(es, tree[i]);
            assert(p.contains(es[m]));
            let q = lemma_index_of(p, es[m]);
            lemma_edges_connect_ends(p, q);
        }
        lemma_forest_rank(s, p, vs);
    }
    lemma_layers_le(tree, g, -127);
    lemma_layers_sum(tree);
    lemma_layers_sum(g);
}

} // verus!
