use vstd::prelude::*;

verus! {

/// An undirected weighted connection between two vertices.
#[derive(Clone, Copy, Debug, PartialEq, Eq, Structural, Hash)]
pub struct Edge {
    pub u: u32,
    pub v: u32,
    pub w: i8,
}

/// Two edges denote the same connection: the same unordered pair and the same weight.
pub open spec fn same_edge(a: Edge, b: Edge) -> bool {
    a.w == b.w && ((a.u == b.u && a.v == b.v) || (a.u == b.v && a.v == b.u))
}

/// The edge with its smaller end first.
pub open spec fn normal_form(e: Edge) -> Edge {
    if e.u <= e.v {
        e
    } else {
        Edge { u: e.v, v: e.u, w: e.w }
    }
}

/// Two edges are the same edge exactly when their normal forms are equal.
pub proof fn lemma_normal_form(a: Edge, b: Edge)
    ensures
        same_edge(a, b) == (normal_form(a) == normal_form(b)),
{
}

/// An edge read from either end is the same edge.
pub proof fn lemma_edge_symmetric(a: u32, b: u32, w: i8)
    ensures
        same_edge(Edge { u: a, v: b, w }, Edge { u: b, v: a, w }),
        same_edge(Edge { u: b, v: a, w }, Edge { u: a, v: b, w }),
{
}

impl Edge {
    pub fn new(u: u32, v: u32, w: i8) -> (r: Edge)
        ensures
            r == (Edge { u, v, w }),
    {
        Edge { u, v, w }
    }

    /// The same edge with its smaller end first.
    pub fn normalized(&self) -> (r: Edge)
        ensures
            r == normal_form(*self),
    {
        if self.u <= self.v {
            *self
        } else {
            Edge { u: self.v, v: self.u, w: self.w }
        }
    }

    pub fn is_equal(&self, other: &Self) -> (r: bool)
        ensures
            r == same_edge(*self, *other),
    {
        (self.u == other.u && self.v == other.v && self.w == other.w)
            || (self.u == other.v && self.v == other.u && self.w == other.w)
    }
}

} // verus!
