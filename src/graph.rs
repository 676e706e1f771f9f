use crate::edge::{lemma_normal_form, normal_form, same_edge, Edge};
use crate::forest::DisjointForest;
use crate::input::{parse_graph, parse_input};
use crate::parser::ParseError;
use crate::spanning::{
    component, connected, greedy_forest, lemma_connected_push, lemma_connected_symmetric,
};
use crate::text::{
    decimal, is_newline, lemma_decimal_digits, lemma_digits_no_line, line_count, push_decimal,
    push_signed_decimal, signed_decimal, string_of,
};
use crate::union_find::UnionFind;
use rand::seq::SliceRandom;
use std::collections::HashSet;
use vstd::prelude::*;

verus! {

broadcast use vstd::std_specs::hash::group_hash_axioms;

/// Some edge of `es` is the same edge as `e`.
pub open spec fn has_edge(es: Seq<Edge>, e: Edge) -> bool {
    exists|i: int| 0 <= i < es.len() && same_edge(#[trigger] es[i], e)
}

/// The edges of `a` that `b` does not hold, in the order of `a`.
pub open spec fn edge_diff(a: Seq<Edge>, b: Seq<Edge>) -> Seq<Edge> {
    a.filter(|e: Edge| !has_edge(b, e))
}

pub open spec fn weight_sum(es: Seq<Edge>) -> int
    decreases es.len(),
{
    if es.len() == 0 {
        0
    } else {
        weight_sum(es.drop_last()) + es.last().w
    }
}

pub open spec fn weight_is(w: int) -> spec_fn(Edge) -> bool {
    |e: Edge| e.w == w
}

/// The edges of weight below `w`, by weight ascending, equal weights in
/// their order in `es`.
pub open spec fn ascending_below(es: Seq<Edge>, w: int) -> Seq<Edge>
    decreases w + 128,
{
    if w <= -128 {
        Seq::empty()
    } else {
        ascending_below(es, w - 1) + es.filter(weight_is(w - 1))
    }
}

/// The edges of weight above `w`, by weight descending, equal weights in
/// their order in `es`.
pub open spec fn descending_above(es: Seq<Edge>, w: int) -> Seq<Edge>
    decreases 127 - w,
{
    if w >= 127 {
        Seq::empty()
    } else {
        descending_above(es, w + 1) + es.filter(weight_is(w + 1))
    }
}

/// A stable sort of `es` by weight, ascending.
pub open spec fn sorted_asc(es: Seq<Edge>) -> Seq<Edge> {
    ascending_below(es, 128)
}

/// A stable sort of `es` by weight, descending.
pub open spec fn sorted_desc(es: Seq<Edge>) -> Seq<Edge> {
    descending_above(es, -129)
}

pub open spec fn negated(e: Edge) -> Edge {
    Edge { u: e.u, v: e.v, w: (-e.w) as i8 }
}

pub open spec fn negative() -> spec_fn(Edge) -> bool {
    |e: Edge| e.w < 0
}

/// One line `u v` for each edge.
pub open spec fn edge_lines(es: Seq<Edge>) -> Seq<char>
    decreases es.len(),
{
    if es.len() == 0 {
        Seq::empty()
    } else {
        let e = es.last();
        edge_lines(es.drop_last()) + decimal(e.u as nat) + seq![' '] + decimal(e.v as nat) + seq!['\n']
    }
}

/// A header line `count sum`, then one line `u v` for each edge.
pub open spec fn serialized(es: Seq<Edge>) -> Seq<char> {
    decimal(es.len()) + seq![' '] + signed_decimal(weight_sum(es)) + seq!['\n'] + edge_lines(es)
}

pub open spec fn dot_head() -> Seq<char> {
    "graph G {\nlayout=neato;\noverlap=scale;\nsplines=true;\nsep=\"+15\";\n\nnode [shape=circle, width=0.2];\nedge [fontsize=8];\n\n  node [shape=circle];\n"@
}

/// One line for each vertex from 1 to `n`.
pub open spec fn dot_nodes(n: nat) -> Seq<char>
    decreases n,
{
    if n == 0 {
        Seq::empty()
    } else {
        dot_nodes((n - 1) as nat) + seq![' ', ' ', ' '] + decimal(n) + seq![';', '\n']
    }
}

/// One line for each edge, labelled with its weight.
pub open spec fn dot_edges(es: Seq<Edge>) -> Seq<char>
    decreases es.len(),
{
    if es.len() == 0 {
        Seq::empty()
    } else {
        dot_edges(es.drop_last()) + dot_edge(es.last())
    }
}

pub open spec fn dot_edge(e: Edge) -> Seq<char> {
    seq![' ', ' ', ' '] + decimal(e.u as nat) + seq![' ', '-', '-', ' '] + decimal(e.v as nat) + seq![
        ' ',
        '[',
        'x',
        'l',
        'a',
        'b',
        'e',
        'l',
        '=',
        '"',
    ] + signed_decimal(e.w as int) + seq!['"', ']', ';', '\n']
}

/// Appends the characters of `more`.
fn push_all(out: &mut Vec<char>, more: Vec<char>)
    ensures
        final(out)@ == old(out)@ + more@,
{
    let mut more = more;
    out.append(&mut more);
}

fn push_dot_edge(out: &mut Vec<char>, e: Edge)
    ensures
        final(out)@ == old(out)@ + dot_edge(e),
{
    let ghost a = out@;
    push_all(out, vec![' ', ' ', ' ']);
    push_decimal(out, e.u as u64);
    push_all(out, vec![' ', '-', '-', ' ']);
    push_decimal(out, e.v as u64);
    let ghost b = out@;
    push_all(out, vec![' ', '[', 'x', 'l', 'a', 'b', 'e', 'l', '=', '"']);
    push_signed_decimal(out, e.w as i64);
    push_all(out, vec!['"', ']', ';', '\n']);
    proof {
        assert(b =~= a + seq![' ', ' ', ' '] + decimal(e.u as nat) + seq![' ', '-', '-', ' ']
            + decimal(e.v as nat));
        assert(out@ =~= a + dot_edge(e));
    }
}

/// The graph in the dot format, vertices 1 to `n` first.
pub open spec fn dot_text(es: Seq<Edge>, n: nat) -> Seq<char> {
    dot_head() + dot_nodes(n) + dot_edges(es) + seq!['}', '\n']
}

/// The edges left out of a maximum-weight spanning forest of `es`, followed
/// by the forest's edges of negative weight.
pub open spec fn honey(es: Seq<Edge>) -> Seq<Edge> {
    let sorted = sorted_desc(es);
    let forest = greedy_forest(sorted);
    edge_diff(sorted, forest) + forest.filter(negative())
}

/// The edges of `a` that `b` holds, in the order of `a`.
pub open spec fn edge_common(a: Seq<Edge>, b: Seq<Edge>) -> Seq<Edge> {
    a.filter(|e: Edge| has_edge(b, e))
}

/// Each edge of `a` is either held by `b` or left in `a` minus `b`.
pub proof fn lemma_diff_common_split(a: Seq<Edge>, b: Seq<Edge>)
    ensures
        edge_diff(a, b).len() + edge_common(a, b).len() == a.len(),
    decreases a.len(),
{
    reveal(Seq::filter);
    if a.len() > 0 {
        lemma_diff_common_split(a.drop_last(), b);
    }
}

/// A graph minus itself has no edge left.
pub proof fn lemma_diff_self_empty(a: Seq<Edge>)
    ensures
        edge_diff(a, a).len() == 0,
{
    lemma_diff_prefix_held(a, a);
}

proof fn lemma_diff_prefix_held(a: Seq<Edge>, b: Seq<Edge>)
    requires
        forall|i: int| 0 <= i < a.len() ==> has_edge(b, #[trigger] a[i]),
    ensures
        edge_diff(a, b).len() == 0,
    decreases a.len(),
{
    reveal(Seq::filter);
    if a.len() > 0 {
        assert(has_edge(b, a[a.len() - 1]));
        lemma_diff_prefix_held(a.drop_last(), b);
    }
}

/// The header line of the serialized form: the count and the weight sum.
pub open spec fn header_line(count: nat, sum: int) -> Seq<char> {
    decimal(count) + seq![' '] + signed_decimal(sum) + seq!['\n']
}

/// The serialized form of `es` is one header line, giving the number of
/// edges and the sum of their weights, followed by exactly one line for each
/// of those edges.
pub proof fn lemma_serialized_header(es: Seq<Edge>)
    ensures
        serialized(es) == header_line(es.len(), weight_sum(es)) + edge_lines(es),
        line_count(header_line(es.len(), weight_sum(es))) == 1,
        header_line(es.len(), weight_sum(es)).last() == '\n',
        line_count(edge_lines(es)) == es.len(),
{
    lemma_line_count_edge_lines(es);
    let sum = weight_sum(es);
    let mag: nat = if sum < 0 { (-sum) as nat } else { sum as nat };
    lemma_decimal_digits(es.len());
    lemma_decimal_digits(mag);
    lemma_digits_no_line(decimal(es.len()));
    lemma_digits_no_line(decimal(mag));
    reveal_with_fuel(Seq::filter, 2);
    assert(line_count(seq![' ']) == 0);
    assert(line_count(seq!['-']) == 0);
    assert(line_count(seq!['\n']) == 1);
    Seq::filter_distributes_over_add(seq!['-'], decimal(mag), is_newline());
    assert(line_count(signed_decimal(sum)) == 0);
    Seq::filter_distributes_over_add(decimal(es.len()), seq![' '], is_newline());
    Seq::filter_distributes_over_add(decimal(es.len()) + seq![' '], signed_decimal(sum), is_newline());
    Seq::filter_distributes_over_add(
        decimal(es.len()) + seq![' '] + signed_decimal(sum),
        seq!['\n'],
        is_newline(),
    );
}

proof fn lemma_line_count_edge_lines(es: Seq<Edge>)
    ensures
        line_count(edge_lines(es)) == es.len(),
    decreases es.len(),
{
    if es.len() > 0 {
        let e = es.last();
        lemma_line_count_edge_lines(es.drop_last());
        lemma_decimal_digits(e.u as nat);
        lemma_decimal_digits(e.v as nat);
        lemma_digits_no_line(decimal(e.u as nat));
        lemma_digits_no_line(decimal(e.v as nat));
        reveal_with_fuel(Seq::filter, 2);
        assert(line_count(seq![' ']) == 0);
        assert(line_count(seq!['\n']) == 1);
        let a = edge_lines(es.drop_last());
        let b = decimal(e.u as nat);
        let c = decimal(e.v as nat);
        Seq::filter_distributes_over_add(a, b, is_newline());
        Seq::filter_distributes_over_add(a + b, seq![' '], is_newline());
        Seq::filter_distributes_over_add(a + b + seq![' '], c, is_newline());
        Seq::filter_distributes_over_add(a + b + seq![' '] + c, seq!['\n'], is_newline());
    }
}

/// A number for an edge, the same for two edges exactly when they are the
/// same edge: the smaller end, the larger end and the weight, packed.
pub open spec fn edge_key(e: Edge) -> int {
    let n = normal_form(e);
    (n.u * 0x1_0000_0000 + n.v) * 256 + (n.w + 128)
}

proof fn lemma_edge_key(a: Edge, b: Edge)
    ensures
        (edge_key(a) == edge_key(b)) == same_edge(a, b),
{
    lemma_normal_form(a, b);
    let na = normal_form(a);
    let nb = normal_form(b);
    let alo: int = na.u as int;
    let ahi: int = na.v as int;
    let blo: int = nb.u as int;
    let bhi: int = nb.v as int;
    let sa: int = na.w + 128;
    let sb: int = nb.w + 128;
    let pa: int = alo * 0x1_0000_0000 + ahi;
    let pb: int = blo * 0x1_0000_0000 + bhi;
    if edge_key(a) == edge_key(b) {
        assert(pa * 256 + sa == pb * 256 + sb);
        assert(0 <= sa < 256 && 0 <= sb < 256);
        assert(pa == pb && sa == sb) by (nonlinear_arith)
            requires
                pa * 256 + sa == pb * 256 + sb,
                0 <= sa < 256,
                0 <= sb < 256,
        ;
        assert(alo == blo && ahi == bhi) by (nonlinear_arith)
            requires
                alo * 0x1_0000_0000 + ahi == blo * 0x1_0000_0000 + bhi,
                0 <= ahi < 0x1_0000_0000,
                0 <= bhi < 0x1_0000_0000,
        ;
    }
}

fn key_of(e: &Edge) -> (r: u128)
    ensures
        r as int == edge_key(*e),
{
    let n = e.normalized();
    let lo: u32 = n.u;
    let hi: u32 = n.v;
    let s: u128 = (n.w as i16 + 128) as u128;
    assert((lo as int) * 0x1_0000_0000 + (hi as int) <= 0xffff_ffff * 0x1_0000_0000 + 0xffff_ffff)
        by (nonlinear_arith)
        requires
            lo <= 0xffff_ffff,
            hi <= 0xffff_ffff,
    ;
    ((lo as u128) * 0x1_0000_0000 + hi as u128) * 256 + s
}

/// Both ends of `e` are keys of `m`.
spec fn covers(m: Map<u32, u32>, e: Edge) -> bool {
    m.contains_key(e.u) && m.contains_key(e.v)
}

/// A graph as the sequence of its edges.
#[derive(Debug)]
pub struct Graph {
    edge_list: Vec<Edge>,
}

/// The edges of `es` of weight `w`, appended to `out`, in their order.
fn push_weight(out: &mut Vec<Edge>, es: &Vec<Edge>, w: i8)
    ensures
        final(out)@ == old(out)@ + es@.filter(weight_is(w as int)),
{
    let ghost base = out@;
    let mut j: usize = 0;
    while j < es.len()
        invariant
            j <= es@.len(),
            out@ == base + es@.take(j as int).filter(weight_is(w as int)),
        decreases es@.len() - j,
    {
        proof {
            reveal(Seq::filter);
            assert(es@.take(j as int + 1).drop_last() =~= es@.take(j as int));
        }
        if es[j].w == w {
            out.push(es[j]);
        }
        j += 1;
        proof {
            assert(out@ =~= base + es@.take(j as int).filter(weight_is(w as int)));
        }
    }
    proof {
        assert(es@.take(j as int) =~= es@);
    }
}

fn sort_asc(es: &Vec<Edge>) -> (r: Vec<Edge>)
    ensures
        r@ == sorted_asc(es@),
{
    let mut out: Vec<Edge> = Vec::new();
    let mut w: i16 = -128;
    while w <= 127
        invariant
            -128 <= w <= 128,
            out@ == ascending_below(es@, w as int),
        decreases 128 - w,
    {
        push_weight(&mut out, es, w as i8);
        w += 1;
    }
    out
}

fn sort_desc(es: &Vec<Edge>) -> (r: Vec<Edge>)
    ensures
        r@ == sorted_desc(es@),
{
    let mut out: Vec<Edge> = Vec::new();
    let mut w: i16 = 127;
    while w >= -128
        invariant
            -129 <= w <= 127,
            out@ == descending_above(es@, w as int),
        decreases w + 129,
    {
        push_weight(&mut out, es, w as i8);
        w -= 1;
    }
    out
}

/// Relies on rand's `SliceRandom::shuffle`, which only swaps items: the
/// result holds the same edges, in an order picked at random.
#[verifier::external_body]
fn shuffle_edges(es: &mut Vec<Edge>)
    ensures
        final(es)@.to_multiset() == old(es)@.to_multiset(),
{
    es.shuffle(&mut rand::rng());
}

impl Graph {
    /// The edges, in order.
    pub closed spec fn view(&self) -> Seq<Edge> {
        self.edge_list@
    }

    pub fn new() -> (r: Graph)
        ensures
            r@ == Seq::<Edge>::empty(),
    {
        Graph { edge_list: Vec::new() }
    }

    pub fn add_edge(&mut self, edge: Edge)
        ensures
            final(self)@ == old(self)@.push(edge),
    {
        self.edge_list.push(edge);
    }

    /// Reads a graph from text: a vertex count `n` in 1..=4999, then
    /// triples `a b w` with `a` and `b` in 1..=n and `w` in -99..=99, all
    /// separated by whitespace. Fails on anything else.
    pub fn from_input(input: String) -> (r: Result<Graph, ParseError>)
        ensures
            r is Ok <==> parse_graph(input@) is Some,
            r is Ok ==> r->Ok_0@ == parse_graph(input@)->0,
    {
        match parse_input(input) {
            Ok((graph, _n)) => Ok(graph),
            Err(e) => Err(e),
        }
    }
}

impl Graph {
    /// The number of edges.
    pub fn len(&self) -> (r: usize)
        ensures
            r == self@.len(),
    {
        self.edge_list.len()
    }

    /// The edge at position `i`.
    pub fn edge(&self, i: usize) -> (r: Edge)
        requires
            i < self@.len(),
        ensures
            r == self@[i as int],
    {
        self.edge_list[i]
    }

    /// Sorts the edges by weight, descending; equal weights keep their order.
    pub fn sort_by_weight_desc(&mut self)
        ensures
            final(self)@ == sorted_desc(old(self)@),
    {
        self.edge_list = sort_desc(&self.edge_list);
    }

    /// Sorts the edges by weight, ascending; equal weights keep their order.
    pub fn sort_by_weight_asc(&mut self)
        ensures
            final(self)@ == sorted_asc(old(self)@),
    {
        self.edge_list = sort_asc(&self.edge_list);
    }

    /// Multiplies every weight by -1.
    pub fn invert_edge_weights(&mut self)
        requires
            forall|i: int| 0 <= i < old(self)@.len() ==> old(self)@[i].w != i8::MIN,
        ensures
            final(self)@ == old(self)@.map_values(|e: Edge| negated(e)),
    {
        let ghost start = self.edge_list@;
        assert(start == old(self)@);
        let mut i: usize = 0;
        while i < self.edge_list.len()
            invariant
                i <= self.edge_list@.len(),
                self.edge_list@.len() == start.len(),
                forall|k: int| 0 <= k < start.len() ==> start[k].w != i8::MIN,
                forall|k: int| 0 <= k < i ==> self.edge_list@[k] == negated(start[k]),
                forall|k: int| i <= k < start.len() ==> self.edge_list@[k] == start[k],
            decreases start.len() - i,
        {
            let e = self.edge_list[i];
            assert(self.edge_list@[i as int] == start[i as int]);
            assert(start[i as int].w != i8::MIN);
            self.edge_list.set(i, Edge { u: e.u, v: e.v, w: -e.w });
            i += 1;
        }
        proof {
            assert(self.edge_list@ =~= start.map_values(|e: Edge| negated(e)));
        }
    }

    /// Puts the edges in an order picked at random.
    pub fn randomize(&mut self)
        ensures
            final(self)@.to_multiset() == old(self)@.to_multiset(),
    {
        shuffle_edges(&mut self.edge_list);
    }

    /// Kruskal's greedy pass over the edges in their order: an edge is kept
    /// when the edges kept before it do not yet connect its ends. On edges
    /// sorted by weight, descending, this is a maximum-weight spanning forest.
    pub fn mst_kruskal(&self) -> (r: Graph)
        ensures
            r@ == greedy_forest(self@),
    {
        let es = &self.edge_list;
        let mut disjoint_forest = DisjointForest::new();
        let mut mst = Graph::new();
        let mut i: usize = 0;
        while i < es.len()
            invariant
                i <= es@.len(),
                disjoint_forest.wf(),
                forall|j: int| 0 <= j < i ==> #[trigger] covers(disjoint_forest@, es@[j]),
                forall|x: u32| #[trigger]
                    disjoint_forest@.contains_key(x) ==> disjoint_forest@[x] == x,
            decreases es@.len() - i,
        {
            let e = es[i];
            let ghost pre = disjoint_forest@;
            if !disjoint_forest.contains(e.u) {
                disjoint_forest.make_set(e.u);
            }
            if !disjoint_forest.contains(e.v) {
                disjoint_forest.make_set(e.v);
            }
            proof {
                assert forall|x: u32| pre.contains_key(x) implies disjoint_forest@.contains_key(x) by {}
                assert(disjoint_forest@.contains_key(e.u) && disjoint_forest@.contains_key(e.v));
                assert forall|j: int| 0 <= j < i + 1 implies #[trigger] covers(
                    disjoint_forest@,
                    es@[j],
                ) by {
                    if j < i {
                        assert(covers(pre, es@[j]));
                    }
                }
            }
            i += 1;
        }
        proof {
            assert forall|x: u32, y: u32|
                disjoint_forest@.contains_key(x) && disjoint_forest@.contains_key(y) implies (
                disjoint_forest@[x] == disjoint_forest@[y]) == connected(mst@, x, y) by {
                assert(component(mst@, x) == set![x]);
            }
        }
        let mut i: usize = 0;
        while i < es.len()
            invariant
                i <= es@.len(),
                disjoint_forest.wf(),
                forall|j: int| 0 <= j < es@.len() ==> #[trigger] covers(disjoint_forest@, es@[j]),
                mst@ == greedy_forest(es@.take(i as int)),
                forall|x: u32, y: u32|
                    disjoint_forest@.contains_key(x) && disjoint_forest@.contains_key(y) ==> (
                    disjoint_forest@[x] == disjoint_forest@[y]) == connected(mst@, x, y),
            decreases es@.len() - i,
        {
            let e = es[i];
            let ghost pre = disjoint_forest@;
            let ghost t = mst@;
            proof {
                assert(covers(pre, es@[i as int]));
                assert(es@.take(i as int + 1).drop_last() =~= es@.take(i as int));
                assert(es@.take(i as int + 1).last() == e);
            }
            let (_u_rank, u_root) = disjoint_forest.find_set(e.u);
            let (_v_rank, v_root) = disjoint_forest.find_set(e.v);
            if u_root != v_root {
                mst.add_edge(e);
                disjoint_forest.union(e.u, e.v);
                proof {
                    assert(disjoint_forest@.dom() =~= pre.dom());
                    assert forall|j: int| 0 <= j < es@.len() implies #[trigger] covers(
                        disjoint_forest@,
                        es@[j],
                    ) by {
                        assert(covers(pre, es@[j]));
                    }
                    assert forall|x: u32, y: u32|
                        disjoint_forest@.contains_key(x) && disjoint_forest@.contains_key(
                            y,
                        ) implies (disjoint_forest@[x] == disjoint_forest@[y]) == connected(
                        mst@,
                        x,
                        y,
                    ) by {
                        lemma_connected_push(t, e, x, y);
                        lemma_connected_symmetric(t, e.v, y);
                        lemma_connected_symmetric(t, e.u, y);
                        assert(pre.contains_key(x) && pre.contains_key(y));
                    }
                }
            }
            i += 1;
        }
        proof {
            assert(es@.take(i as int) =~= es@);
        }
        mst
    }

    /// The edges that a set of edges meeting every cycle, of least total
    /// weight, is made of: those that Kruskal's pass over the edges sorted by
    /// weight, descending, leaves out, followed by the forest's edges of
    /// negative weight.
    pub fn honey_edges(&self) -> (r: Graph)
        ensures
            r@ == honey(self@),
    {
        let sorted = Graph { edge_list: sort_desc(&self.edge_list) };
        let mst = sorted.mst_kruskal();
        let mut result = graph_edge_set_diff(&sorted, &mst);
        let ghost base = result@;
        let mut i: usize = 0;
        while i < mst.edge_list.len()
            invariant
                i <= mst@.len(),
                result@ == base + mst@.take(i as int).filter(negative()),
            decreases mst@.len() - i,
        {
            proof {
                reveal(Seq::filter);
                assert(mst@.take(i as int + 1).drop_last() =~= mst@.take(i as int));
            }
            let e = mst.edge_list[i];
            if e.w < 0 {
                result.add_edge(e);
            }
            i += 1;
            proof {
                assert(result@ =~= base + mst@.take(i as int).filter(negative()));
            }
        }
        proof {
            assert(mst@.take(i as int) =~= mst@);
        }
        result
    }

    /// The edge count and the weight sum on a first line, then the ends of
    /// each edge on a line of their own.
    pub fn serialize_edges(&self) -> (r: String)
        requires
            self@.len() <= 0xff_ffff_ffff_ffff,
        ensures
            r@ == serialized(self@),
    {
        let mut out: Vec<char> = Vec::new();
        push_decimal(&mut out, self.edge_list.len() as u64);
        out.push(' ');
        let w = self.graph_weight_sum();
        push_signed_decimal(&mut out, w);
        out.push('\n');
        let ghost head = out@;
        let mut i: usize = 0;
        while i < self.edge_list.len()
            invariant
                i <= self.edge_list@.len(),
                out@ == head + edge_lines(self.edge_list@.take(i as int)),
            decreases self.edge_list@.len() - i,
        {
            proof {
                assert(self.edge_list@.take(i as int + 1).drop_last() =~= self.edge_list@.take(i as int));
            }
            let e = self.edge_list[i];
            push_decimal(&mut out, e.u as u64);
            out.push(' ');
            push_decimal(&mut out, e.v as u64);
            out.push('\n');
            i += 1;
            proof {
                assert(out@ =~= head + edge_lines(self.edge_list@.take(i as int)));
            }
        }
        proof {
            assert(self.edge_list@.take(i as int) =~= self.edge_list@);
            assert(out@ =~= serialized(self@));
        }
        string_of(&out)
    }

    /// The sum of the weights.
    pub fn graph_weight_sum(&self) -> (r: i64)
        requires
            self@.len() <= 0xff_ffff_ffff_ffff,
        ensures
            r == weight_sum(self@),
    {
        let mut sum: i64 = 0;
        let mut i: usize = 0;
        while i < self.edge_list.len()
            invariant
                i <= self.edge_list@.len(),
                self.edge_list@.len() <= 0xff_ffff_ffff_ffff,
                sum == weight_sum(self.edge_list@.take(i as int)),
                -128 * i <= sum <= 127 * i,
            decreases self.edge_list@.len() - i,
        {
            proof {
                assert(self.edge_list@.take(i as int + 1).drop_last() =~= self.edge_list@.take(i as int));
            }
            sum = sum + self.edge_list[i].w as i64;
            i += 1;
        }
        proof {
            assert(self.edge_list@.take(i as int) =~= self.edge_list@);
        }
        sum
    }
}

/// The edges of `graph_a` that `graph_b` does not hold, as undirected edges
/// with their weight, in the order of `graph_a`.
pub fn graph_edge_set_diff(graph_a: &Graph, graph_b: &Graph) -> (r: Graph)
    ensures
        r@ == edge_diff(graph_a@, graph_b@),
{
    let a = &graph_a.edge_list;
    let b = &graph_b.edge_list;
    let mut keys: HashSet<u128> = HashSet::new();
    let mut i: usize = 0;
    while i < b.len()
        invariant
            i <= b@.len(),
            forall|k: u128|
                #[trigger] keys@.contains(k) <==> exists|j: int|
                    0 <= j < i && edge_key(#[trigger] b@[j]) == k as int,
        decreases b@.len() - i,
    {
        let k = key_of(&b[i]);
        keys.insert(k);
        proof {
            assert forall|k2: u128| #[trigger] keys@.contains(k2) implies exists|j: int|
                0 <= j < i + 1 && edge_key(#[trigger] b@[j]) == k2 as int by {
                if k2 == k {
                    assert(edge_key(b@[i as int]) == k2 as int);
                }
            }
        }
        i += 1;
    }
    let mut complement = Graph::new();
    let mut i: usize = 0;
    while i < a.len()
        invariant
            i <= a@.len(),
            forall|k: u128|
                #[trigger] keys@.contains(k) <==> exists|j: int|
                    0 <= j < b@.len() && edge_key(#[trigger] b@[j]) == k as int,
            complement@ == edge_diff(a@.take(i as int), b@),
        decreases a@.len() - i,
    {
        let e = a[i];
        let k = key_of(&e);
        proof {
            reveal(Seq::filter);
            assert(a@.take(i as int + 1).drop_last() =~= a@.take(i as int));
            assert forall|j: int| 0 <= j < b@.len() implies (edge_key(b@[j]) == k as int) == same_edge(
                b@[j],
                e,
            ) by {
                lemma_edge_key(b@[j], e);
            }
        }
        if !keys.contains(&k) {
            complement.add_edge(e);
        }
        i += 1;
    }
    proof {
        assert(a@.take(i as int) =~= a@);
    }
    complement
}

/// Appends the edges of `graph_b` to `graph_a`.
pub fn combine_graphs(graph_a: &mut Graph, graph_b: &Graph)
    ensures
        final(graph_a)@ == old(graph_a)@ + graph_b@,
{
    let mut i: usize = 0;
    while i < graph_b.edge_list.len()
        invariant
            i <= graph_b@.len(),
            graph_a@ == old(graph_a)@ + graph_b@.take(i as int),
        decreases graph_b@.len() - i,
    {
        graph_a.add_edge(graph_b.edge_list[i]);
        i += 1;
        proof {
            assert(graph_a@ =~= old(graph_a)@ + graph_b@.take(i as int));
        }
    }
    proof {
        assert(graph_b@.take(i as int) =~= graph_b@);
    }
}

/// Kruskal's greedy pass over the edges of `graph` in their order, on a
/// union-find without ranks; the same edges as `Graph::mst_kruskal`.
pub fn mst_kruskal(graph: &Graph) -> (r: Graph)
    ensures
        r@ == greedy_forest(graph@),
{
    let es = &graph.edge_list;
    let mut union_find = UnionFind::new();
    let mut a = Graph::new();
    let mut i: usize = 0;
    while i < es.len()
        invariant
            i <= es@.len(),
            union_find.wf(),
            forall|j: int| 0 <= j < i ==> #[trigger] covers(union_find@, es@[j]),
            forall|x: u32| #[trigger] union_find@.contains_key(x) ==> union_find@[x] == x,
        decreases es@.len() - i,
    {
        let e = es[i];
        let ghost pre = union_find@;
        if !union_find.contains(e.u) {
            union_find.make_set(e.u);
        }
        if !union_find.contains(e.v) {
            union_find.make_set(e.v);
        }
        proof {
            assert forall|j: int| 0 <= j < i + 1 implies #[trigger] covers(union_find@, es@[j]) by {
                if j < i {
                    assert(covers(pre, es@[j]));
                }
            }
        }
        i += 1;
    }
    proof {
        assert forall|x: u32, y: u32|
            union_find@.contains_key(x) && union_find@.contains_key(y) implies (union_find@[x]
            == union_find@[y]) == connected(a@, x, y) by {
            assert(component(a@, x) == set![x]);
        }
    }
    let mut i: usize = 0;
    while i < es.len()
        invariant
            i <= es@.len(),
            union_find.wf(),
            forall|j: int| 0 <= j < es@.len() ==> #[trigger] covers(union_find@, es@[j]),
            a@ == greedy_forest(es@.take(i as int)),
            forall|x: u32, y: u32|
                union_find@.contains_key(x) && union_find@.contains_key(y) ==> (union_find@[x]
                    == union_find@[y]) == connected(a@, x, y),
        decreases es@.len() - i,
    {
        let e = es[i];
        let ghost pre = union_find@;
        let ghost t = a@;
        proof {
            assert(covers(pre, es@[i as int]));
            assert(es@.take(i as int + 1).drop_last() =~= es@.take(i as int));
            assert(es@.take(i as int + 1).last() == e);
        }
        if union_find.find(e.u) != union_find.find(e.v) {
            a.add_edge(e);
            union_find.union(e.u, e.v);
            proof {
                assert(union_find@.dom() =~= pre.dom());
                assert forall|j: int| 0 <= j < es@.len() implies #[trigger] covers(
                    union_find@,
                    es@[j],
                ) by {
                    assert(covers(pre, es@[j]));
                }
                assert forall|x: u32, y: u32|
                    union_find@.contains_key(x) && union_find@.contains_key(y) implies (
                    union_find@[x] == union_find@[y]) == connected(a@, x, y) by {
                    lemma_connected_push(t, e, x, y);
                    lemma_connected_symmetric(t, e.v, y);
                    lemma_connected_symmetric(t, e.u, y);
                    assert(pre.contains_key(x) && pre.contains_key(y));
                }
            }
        }
        i += 1;
    }
    proof {
        assert(es@.take(i as int) =~= es@);
    }
    a
}

/// The output of `serialize_edges` for `graph`.
pub fn serialize_honey_edges(graph: &Graph) -> (r: String)
    requires
        graph@.len() <= 0xff_ffff_ffff_ffff,
    ensures
        r@ == serialized(graph@),
{
    graph.serialize_edges()
}

/// The graph in the dot format, with vertices 1 to `vertex_count`.
pub fn to_dot_fmt(graph: &Graph, vertex_count: u32) -> (r: String)
    ensures
        r@ == dot_text(graph@, vertex_count as nat),
{
    let mut dot = String::from_str(
        "graph G {\nlayout=neato;\noverlap=scale;\nsplines=true;\nsep=\"+15\";\n\nnode [shape=circle, width=0.2];\nedge [fontsize=8];\n\n  node [shape=circle];\n",
    );
    let mut out: Vec<char> = Vec::new();
    let mut i: u64 = 1;
    while i <= vertex_count as u64
        invariant
            1 <= i,
            i <= vertex_count + 1,
            out@ == dot_nodes((i - 1) as nat),
        decreases vertex_count + 1 - i,
    {
        out.push(' ');
        out.push(' ');
        out.push(' ');
        push_decimal(&mut out, i);
        out.push(';');
        out.push('\n');
        proof {
            assert(out@ =~= dot_nodes(i as nat));
        }
        i += 1;
    }
    let ghost nodes = out@;
    assert(nodes == dot_nodes(vertex_count as nat));
    let es = &graph.edge_list;
    let mut j: usize = 0;
    while j < es.len()
        invariant
            j <= es@.len(),
            out@ == nodes + dot_edges(es@.take(j as int)),
        decreases es@.len() - j,
    {
        proof {
            assert(es@.take(j as int + 1).drop_last() =~= es@.take(j as int));
        }
        push_dot_edge(&mut out, es[j]);
        j += 1;
        proof {
            assert(out@ =~= nodes + dot_edges(es@.take(j as int)));
        }
    }
    out.push('}');
    out.push('\n');
    proof {
        assert(es@.take(j as int) =~= es@);
    }
    let rest = string_of(&out);
    dot.append(rest.as_str());
    proof {
        assert(dot@ =~= dot_text(graph@, vertex_count as nat));
    }
    dot
}

/// The sum of the weights of `graph`.
pub fn graph_weight_sum(graph: &Graph) -> (r: i64)
    requires
        graph@.len() <= 0xff_ffff_ffff_ffff,
    ensures
        r == weight_sum(graph@),
{
    graph.graph_weight_sum()
}

} // verus!
