use crate::edge::Edge;
use crate::graph::Graph;
use crate::parser::{chars_of, ParseError, ParseErrorKind, Parser};
use crate::text::{
    all_digits, at_boundary, digits_value, is_digit, is_space, is_whitespace, lemma_read_token,
    lemma_tokens_space, lemma_tokens_split, signed_value, tokens, unsigned_value,
};
use vstd::prelude::*;

verus! {

/// The edges that the triples of tokens `t` spell, with vertices in 1..=n
/// and weights in -99..=99; none where a triple is short or a token is out
/// of place.
pub open spec fn edges_of(t: Seq<Seq<char>>, n: int) -> Option<Seq<Edge>>
    decreases t.len(),
{
    if t.len() == 0 {
        Some(Seq::empty())
    } else if t.len() < 3 {
        None
    } else {
        match (unsigned_value(t[0]), unsigned_value(t[1]), signed_value(t[2])) {
            (Some(a), Some(b), Some(w)) => {
                if 1 <= a <= n && 1 <= b <= n && -99 <= w <= 99 {
                    prepend(
                        seq![Edge { u: a as u32, v: b as u32, w: w as i8 }],
                        edges_of(t.subrange(3, t.len() as int), n),
                    )
                } else {
                    None
                }
            },
            _ => None,
        }
    }
}

pub open spec fn prepend(g: Seq<Edge>, o: Option<Seq<Edge>>) -> Option<Seq<Edge>> {
    match o {
        Some(r) => Some(g + r),
        None => None,
    }
}

/// The edges that the text `s` gives: a vertex count in 1..=4999, then
/// triples `a b w` of vertices and weight, all separated by whitespace.
pub open spec fn parse_graph(s: Seq<char>) -> Option<Seq<Edge>> {
    let t = tokens(s);
    if t.len() == 0 {
        None
    } else {
        match unsigned_value(t[0]) {
            Some(n) => if 0 < n < 5000 {
                edges_of(t.drop_first(), n)
            } else {
                None
            },
            None => None,
        }
    }
}

/// The value of `tok` when it is a number, signed only where `signed`.
pub open spec fn token_value(tok: Seq<char>, signed: bool) -> Option<int> {
    if signed {
        signed_value(tok)
    } else {
        unsigned_value(tok)
    }
}

/// The number that `tok` spells, when it lies in `lo..=hi`.
fn number_in(tok: &Vec<char>, signed: bool, lo: i64, hi: i64) -> (r: Option<i64>)
    requires
        -1_000_000 <= lo,
        hi <= 1_000_000,
    ensures
        r is Some <==> (token_value(tok@, signed) is Some && lo <= token_value(tok@, signed)->0 <= hi),
        r is Some ==> r->0 == token_value(tok@, signed)->0,
{
    let n = tok.len();
    let mut i: usize = 0;
    let mut neg = false;
    if n > 0 && tok[0] == '-' {
        if !signed {
            return None;
        }
        i = 1;
        neg = true;
    } else if n > 0 && tok[0] == '+' {
        i = 1;
    }
    let ghost d = tok@.subrange(i as int, n as int);
    proof {
        if i == 1 {
            assert(d =~= tok@.drop_first());
        } else {
            assert(d =~= tok@);
        }
    }
    assert(token_value(tok@, signed) == (if all_digits(d) {
        Some(if neg { -digits_value(d) } else { digits_value(d) as int })
    } else {
        None::<int>
    }));
    if i >= n {
        return None;
    }
    let mut acc: u64 = 0;
    let mut big = false;
    let mut j: usize = i;
    while j < n
        invariant
            i < n,
            n == tok@.len(),
            d == tok@.subrange(i as int, n as int),
            token_value(tok@, signed) == (if all_digits(d) {
                Some(if neg { -digits_value(d) } else { digits_value(d) as int })
            } else {
                None::<int>
            }),
            i <= j <= n,
            acc <= 1_000_000,
            !big ==> acc == digits_value(tok@.subrange(i as int, j as int)),
            big ==> digits_value(tok@.subrange(i as int, j as int)) > 1_000_000,
            forall|k: int| i <= k < j ==> is_digit(#[trigger] tok@[k]),
        decreases n - j,
    {
        let c = tok[j];
        if !('0' <= c && c <= '9') {
            assert(!is_digit(d[j - i]));
            return None;
        }
        proof {
            assert(tok@.subrange(i as int, j + 1).drop_last() =~= tok@.subrange(i as int, j as int));
        }
        if !big {
            let v: u64 = acc * 10 + (c as u64 - 48);
            if v > 1_000_000 {
                big = true;
            } else {
                acc = v;
            }
        }
        j += 1;
    }
    assert(d =~= tok@.subrange(i as int, j as int));
    assert(all_digits(d));
    if big {
        return None;
    }
    let v: i64 = if neg {
        -(acc as i64)
    } else {
        acc as i64
    };
    if lo <= v && v <= hi {
        Some(v)
    } else {
        None
    }
}

/// Reads the next token and the whitespace after it; returns the token's
/// characters and where the next token starts.
fn read_token(parser: &mut Parser) -> (r: (Vec<char>, usize))
    requires
        old(parser).wf(),
        at_boundary(old(parser).text(), old(parser).position()),
        old(parser).position() == old(parser).text().len() || !is_space(
            old(parser).text()[old(parser).position()],
        ),
    ensures
        final(parser).wf(),
        final(parser).text() == old(parser).text(),
        final(parser).position() == r.1,
        old(parser).position() <= r.1 <= old(parser).text().len(),
        at_boundary(old(parser).text(), r.1 as int),
        r.1 == old(parser).text().len() || !is_space(old(parser).text()[r.1 as int]),
        old(parser).position() < old(parser).text().len() ==> r.0@.len() > 0 && old(
            parser,
        ).position() < r.1,
        tokens(old(parser).text().skip(old(parser).position())) == (if r.0@.len() > 0 {
            seq![r.0@]
        } else {
            Seq::empty()
        }) + tokens(old(parser).text().skip(r.1 as int)),
{
    let ghost s = parser.text();
    let ghost p = parser.position();
    let tok = parser.next_while(|c: char| -> (b: bool)
        ensures
            b == !is_space(c),
        { !is_whitespace(c) });
    let ghost e = parser.position();
    assert(p <= e <= s.len());
    proof {
        if e < s.len() {
            assert(is_space(s[e]));
        }
        if p < s.len() && e == p {
            assert(is_space(s[p]));
        }
    }
    parser.consume_whitespace();
    let q = parser.offset();
    assert(e <= q <= s.len());
    let chars = chars_of(tok.as_str());
    proof {
        lemma_read_token(s, p, e, q as int);
        if p < s.len() {
            assert(!is_space(s[p]));
        }
    }
    (chars, q)
}

/// The vertex count that the text `s` starts with.
pub open spec fn vertex_count(s: Seq<char>) -> int {
    unsigned_value(tokens(s)[0])->0
}

/// Reads a graph from text as `Graph::from_input` does, and returns the
/// vertex count with it.
pub fn parse_input(input: String) -> (r: Result<(Graph, u32), ParseError>)
    ensures
        r is Ok <==> parse_graph(input@) is Some,
        r is Ok ==> r->Ok_0.0@ == parse_graph(input@)->0 && r->Ok_0.1 == vertex_count(input@),
{
    let mut parser = Parser::new(input);
    let ghost s = parser.text();
    let mut graph = Graph::new();
    parser.consume_whitespace();
    let ghost p0 = parser.position();
    proof {
        lemma_tokens_split(s, p0);
        lemma_tokens_space(s.take(p0));
        assert(tokens(s.take(p0)) + tokens(s.skip(p0)) =~= tokens(s.skip(p0)));
    }
    let at = parser.byte_offset();
    let (tok, q) = read_token(&mut parser);
    let header = number_in(&tok, false, 1, 4999);
    let n: i64 = match header {
        Some(n) => n,
        None => {
            return Err(ParseError { pos: at, kind: ParseErrorKind::VertexCount });
        },
    };
    proof {
        assert(tokens(s).drop_first() =~= tokens(s.skip(q as int)));
        assert(prepend(graph@, edges_of(tokens(s.skip(q as int)), n as int)) == parse_graph(s)) by {
            assert(Seq::<Edge>::empty() + edges_of(tokens(s.skip(q as int)), n as int)->0 =~= edges_of(
                tokens(s.skip(q as int)),
                n as int,
            )->0);
        }
    }
    while !parser.eof()
        invariant
            parser.wf(),
            parser.text() == s,
            s == input@,
            1 <= n <= 4999,
            at_boundary(s, parser.position()),
            parser.position() == s.len() || !is_space(s[parser.position()]),
            prepend(graph@, edges_of(tokens(s.skip(parser.position())), n as int)) == parse_graph(s),
        decreases s.len() - parser.position(),
    {
        let ghost p = parser.position();
        let ghost rest = tokens(s.skip(p));
        let at_a = parser.byte_offset();
        let (ta, qa) = read_token(&mut parser);
        let at_b = parser.byte_offset();
        let (tb, qb) = read_token(&mut parser);
        let at_w = parser.byte_offset();
        let (tw, qw) = read_token(&mut parser);
        let ghost after = tokens(s.skip(qw as int));
        proof {
            assert(rest.len() > 0);
            assert(rest[0] == ta@);
        }
        let a = number_in(&ta, false, 1, n);
        if a.is_none() {
            return Err(ParseError { pos: at_a, kind: ParseErrorKind::Vertex });
        }
        let b = number_in(&tb, false, 1, n);
        if b.is_none() {
            proof {
                if tb@.len() > 0 {
                    assert(rest[1] == tb@);
                } else {
                    assert(unsigned_value(tb@) is None);
                }
            }
            return Err(ParseError { pos: at_b, kind: ParseErrorKind::Vertex });
        }
        let w = number_in(&tw, true, -99, 99);
        if w.is_none() {
            proof {
                assert(tb@.len() > 0);
                assert(rest[1] == tb@);
                if tw@.len() > 0 {
                    assert(rest[2] == tw@);
                } else {
                    assert(signed_value(tw@) is None);
                }
            }
            return Err(ParseError { pos: at_w, kind: ParseErrorKind::Weight });
        }
        let e = Edge { u: a.unwrap() as u32, v: b.unwrap() as u32, w: w.unwrap() as i8 };
        proof {
            assert(tb@.len() > 0 && tw@.len() > 0);
            assert(rest =~= seq![ta@, tb@, tw@] + after);
            assert(rest.subrange(3, rest.len() as int) =~= after);
            let g = graph@;
            assert(prepend(g, prepend(seq![e], edges_of(after, n as int))) == prepend(
                g.push(e),
                edges_of(after, n as int),
            )) by {
                if edges_of(after, n as int) is Some {
                    assert(g + (seq![e] + edges_of(after, n as int)->0) =~= g.push(e) + edges_of(
                        after,
                        n as int,
                    )->0);
                }
            }
        }
        graph.add_edge(e);
    }
    proof {
        assert(parser.position() == s.len());
        assert(s.skip(parser.position() as int) =~= Seq::<char>::empty());
        assert(graph@ + Seq::<Edge>::empty() =~= graph@);
    }
    Ok((graph, n as u32))
}

} // verus!
