use crate::edge::Edge;
use crate::spanning::{
    connected, lemma_component_equiv, lemma_component_in_vertices,
    lemma_connected_push, lemma_connected_symmetric, vertices,
};
use std::collections::HashMap;
use vstd::prelude::*;
use vstd::set_lib::{lemma_len_subset, lemma_set_disjoint_lens, range_set_properties};

verus! {

broadcast use vstd::std_specs::hash::group_hash_axioms;

/// A disjoint-set forest with union by rank and path compression.
///
/// Each registered vertex maps to `(rank, parent)`; a vertex is a root when
/// it is its own parent. The ghost map `rep` records, for each registered
/// vertex, the root of its tree: two vertices lie in the same set exactly
/// when they have the same root.
pub struct DisjointForest {
    forest: HashMap<u32, (u32, u32)>,
    rep: Ghost<Map<u32, u32>>,
}

/// A finite set of `u32` values has at most 2^32 elements.
proof fn lemma_u32_set_len(s: Set<u32>)
    requires
        s.finite(),
    ensures
        s.len() <= 0x1_0000_0000,
{
    broadcast use range_set_properties;

    let low = Set::<u32>::range(0, u32::MAX);
    let all = low.insert(u32::MAX);
    assert(low.len() == u32::MAX as nat);
    assert(!low.contains(u32::MAX));
    assert(all.len() == low.len() + 1);
    assert(s.subset_of(all));
    lemma_len_subset(s, all);
}

pub open spec fn pow2(k: nat) -> nat
    decreases k,
{
    if k == 0 {
        1
    } else {
        2 * pow2((k - 1) as nat)
    }
}

proof fn lemma_pow2_above(k: nat)
    ensures
        pow2(k) >= k + 1,
    decreases k,
{
    if k > 0 {
        lemma_pow2_above((k - 1) as nat);
    }
}

impl DisjointForest {
    /// The registered vertices, each mapped to the root of its set.
    pub closed spec fn view(&self) -> Map<u32, u32> {
        self.rep@
    }

    /// The rank stored for a registered vertex.
    pub closed spec fn rank_of(&self, x: u32) -> u32 {
        self.forest@[x].0
    }

    spec fn dom(&self) -> Set<u32> {
        self.forest@.dom()
    }

    /// The parent stored for a registered vertex.
    pub closed spec fn parent_of(&self, x: u32) -> u32 {
        self.forest@[x].1
    }

    /// How many registered vertices have root `r`.
    pub open spec fn set_size(&self, r: u32) -> nat {
        self@.dom().filter(|x: u32| self@[x] == r).len()
    }

    /// The vertices met on the parent links from `x` up to its root, the
    /// root left out.
    pub closed spec fn path(&self, x: u32) -> Seq<u32>
        decreases u32::MAX - self.rank_of(x),
    {
        if !self.dom().contains(x) || self.parent_of(x) == x || self.rank_of(self.parent_of(x))
            <= self.rank_of(x) {
            Seq::empty()
        } else {
            seq![x] + self.path(self.parent_of(x))
        }
    }

    spec fn class(&self, r: u32) -> Set<u32> {
        self.dom().filter(|x: u32| self.rep@[x] == r)
    }

    /// What holds of each registered vertex `x`: its parent and root are
    /// registered, its root is its own parent and the root of its parent,
    /// ranks grow strictly towards the root, and a root of rank `k` has at
    /// least 2^k vertices in its set.
    spec fn node(&self, x: u32) -> bool {
        self.dom().contains(x) ==> {
            &&& self.dom().contains(self.parent_of(x))
            &&& self.dom().contains(self.rep@[x])
            &&& self.parent_of(self.rep@[x]) == self.rep@[x]
            &&& self.rep@[self.parent_of(x)] == self.rep@[x]
            &&& (self.parent_of(x) == x ==> self.rep@[x] == x)
            &&& (self.parent_of(x) != x ==> self.rank_of(self.parent_of(x)) > self.rank_of(x))
            &&& (self.rep@[x] != x ==> self.rank_of(self.rep@[x]) > self.rank_of(x))
            &&& (self.rep@[x] == x ==> pow2(self.rank_of(x) as nat) <= self.class(x).len())
        }
    }

    pub closed spec fn wf(&self) -> bool {
        &&& self.rep@.dom() == self.dom()
        &&& self.dom().finite()
        &&& forall|x: u32| #[trigger] self.node(x)
    }

    /// What holds of every registered vertex of a well-formed forest: its
    /// parent and root are registered, the root is its own root and its own
    /// parent, the parent has the same root, ranks grow strictly towards the
    /// root, and a root of rank `k` has at least 2^k vertices in its set.
    pub proof fn lemma_registered(&self, x: u32)
        requires
            self.wf(),
            self@.contains_key(x),
        ensures
            self@.contains_key(self.parent_of(x)),
            self@.contains_key(self@[x]),
            self@[self@[x]] == self@[x],
            self.parent_of(self@[x]) == self@[x],
            self@[self.parent_of(x)] == self@[x],
            self.parent_of(x) == x <==> self@[x] == x,
            self.parent_of(x) != x ==> self.rank_of(self.parent_of(x)) > self.rank_of(x),
            self@[x] != x ==> self.rank_of(self@[x]) > self.rank_of(x),
            self@[x] == x ==> pow2(self.rank_of(x) as nat) <= self.set_size(x),
    {
        assert(self.node(x));
        assert(self.node(self.rep@[x]));
        assert(self.class(x) =~= self@.dom().filter(|y: u32| self@[y] == x));
    }

    pub fn new() -> (r: DisjointForest)
        ensures
            r.wf(),
            r@ == Map::<u32, u32>::empty(),
    {
        let r = DisjointForest { forest: HashMap::new(), rep: Ghost(Map::empty()) };
        proof {
            assert(r.dom() =~= Set::empty());
            assert(r.rep@.dom() =~= r.dom());
        }
        r
    }

    /// Whether `v` has been registered.
    pub fn contains(&self, v: u32) -> (r: bool)
        requires
            self.wf(),
        ensures
            r == self@.contains_key(v),
    {
        self.forest.contains_key(&v)
    }

    /// Registers `v` as a singleton set of rank 0.
    pub fn make_set(&mut self, v: u32)
        requires
            old(self).wf(),
            !old(self)@.contains_key(v),
        ensures
            final(self).wf(),
            final(self)@ == old(self)@.insert(v, v),
            final(self).rank_of(v) == 0,
            forall|x: u32| old(self)@.contains_key(x) ==> final(self).rank_of(x) == old(self).rank_of(x),
    {
        let ghost pre = *self;
        self.forest.insert(v, (0, v));
        self.rep = Ghost(self.rep@.insert(v, v));
        proof {
            assert(self.dom() =~= pre.dom().insert(v));
            assert(self.rep@.dom() =~= self.dom());
            assert forall|x: u32| #[trigger] self.class(v).contains(x) implies x == v by {
                assert(pre.node(x));
            }
            assert(self.class(v) =~= set![v]);
            assert forall|x: u32| #[trigger] self.node(x) by {
                if x != v {
                    assert(pre.node(x));
                    if pre.dom().contains(x) {
                        assert(self.class(x) =~= pre.class(x));
                    }
                }
            }
        }
    }

    /// Follows parent links from `v` to its root; returns the root's rank and
    /// the root.
    pub fn find_root(&self, v: u32) -> (r: (u32, u32))
        requires
            self.wf(),
            self@.contains_key(v),
        ensures
            r.1 == self@[v],
            r.0 == self.rank_of(self@[v]),
    {
        let mut current = v;
        loop
            invariant
                self.wf(),
                self.dom().contains(current),
                self.rep@[current] == self.rep@[v],
            decreases u32::MAX - self.rank_of(current),
        {
            proof {
                assert(self.node(current));
                assert(self.node(self.parent_of(current)));
            }
            let (rank, parent) = *self.forest.get(&current).unwrap();
            if parent == current {
                return (rank, current);
            }
            current = parent;
        }
    }

    /// Like `find_root`, and then points every vertex on the path from `v`
    /// straight at the root. The sets, their roots and the ranks stay as
    /// they were.
    pub fn find_set(&mut self, v: u32) -> (r: (u32, u32))
        requires
            old(self).wf(),
            old(self)@.contains_key(v),
        ensures
            final(self).wf(),
            final(self)@ == old(self)@,
            forall|x: u32| old(self)@.contains_key(x) ==> final(self).rank_of(x) == old(self).rank_of(x),
            r.1 == old(self)@[v],
            r.0 == old(self).rank_of(old(self)@[v]),
            forall|x: u32|
                #![trigger old(self)@[x]]
                old(self)@.contains_key(x) ==> final(self).rank_of(final(self)@[x]) == old(
                    self,
                ).rank_of(old(self)@[x]),
            forall|i: int|
                0 <= i < old(self).path(v).len()
                    ==> final(self).parent_of(#[trigger] old(self).path(v)[i]) == old(self)@[v],
            forall|x: u32|
                old(self)@.contains_key(x) && !old(self).path(v).contains(x)
                    ==> final(self).parent_of(x) == old(self).parent_of(x),
    {
        let ghost pre = *self;
        let ghost p = pre.path(v);
        let (rank, root) = self.find_root(v);
        let mut current = v;
        let ghost mut k: int = 0;
        while current != root
            invariant
                self.wf(),
                self.rep@ == pre.rep@,
                self.dom() == pre.dom(),
                forall|x: u32| pre.dom().contains(x) ==> self.rank_of(x) == pre.rank_of(x),
                self.dom().contains(current),
                self.rep@[current] == root,
                root == pre.rep@[v],
                rank == pre.rank_of(root),
                p == pre.path(v),
                pre.wf(),
                pre.dom().contains(v),
                0 <= k <= p.len(),
                pre.path(current) == p.skip(k),
                forall|i: int| 0 <= i < k ==> pre.rank_of(#[trigger] p[i]) < pre.rank_of(current),
                forall|i: int| 0 <= i < k ==> self.parent_of(#[trigger] p[i]) == root,
                forall|x: u32|
                    pre.dom().contains(x) && !p.take(k).contains(x) ==> self.parent_of(x)
                        == pre.parent_of(x),
            decreases self.rank_of(root) - self.rank_of(current),
        {
            let ghost before = *self;
            proof {
                assert(pre.node(current));
                assert(!p.take(k).contains(current)) by {
                    if p.take(k).contains(current) {
                        let i = choose|i: int| 0 <= i < k && p.take(k)[i] == current;
                        assert(p[i] == current);
                    }
                }
                assert(pre.rep@[current] == root);
                assert(pre.parent_of(current) != current);
                assert(pre.rank_of(pre.parent_of(current)) > pre.rank_of(current));
                assert(pre.path(current) == seq![current] + pre.path(pre.parent_of(current)));
                assert(p.skip(k).len() >= 1);
                assert(p.skip(k)[0] == current);
                assert(p.skip(k)[0] == p[k]);
                assert(p.skip(k + 1) =~= p.skip(k).drop_first());
            }
            let (r, parent) = *self.forest.get(&current).unwrap();
            self.forest.insert(current, (r, root));
            proof {
                assert(before.node(current));
                assert(before.node(parent));
                assert(before.node(root));
                assert(self.dom() =~= before.dom());
                assert forall|x: u32| #[trigger] self.node(x) by {
                    assert(before.node(x));
                    assert(self.class(x) =~= before.class(x));
                }
                assert(p.take(k + 1) =~= p.take(k).push(current));
                assert forall|x: u32|
                    pre.dom().contains(x) && !p.take(k + 1).contains(x) implies self.parent_of(x)
                    == pre.parent_of(x) by {
                    assert(x != current) by {
                        if x == current {
                            assert(p.take(k + 1)[k] == current);
                        }
                    }
                    if p.take(k).contains(x) {
                        let i = choose|i: int| 0 <= i < k && p.take(k)[i] == x;
                        assert(p.take(k + 1)[i] == x);
                    }
                }
                k = k + 1;
            }
            current = parent;
        }
        proof {
            assert forall|x: u32| #![trigger pre.rep@[x]] pre.dom().contains(x) implies self.rank_of(
                self.rep@[x],
            ) == pre.rank_of(pre.rep@[x]) by {
                assert(pre.node(x));
            }
            assert(pre.node(root));
            assert(p.skip(k).len() == 0);
            assert(p.take(k) =~= p);
        }
        (rank, root)
    }

    /// Merges the sets of `u` and `v`: the root of lower rank goes under the
    /// other; on equal ranks `u`'s root goes under `v`'s, whose rank grows
    /// by one.
    pub fn union(&mut self, u: u32, v: u32)
        requires
            old(self).wf(),
            old(self)@.contains_key(u),
            old(self)@.contains_key(v),
        ensures
            final(self).wf(),
            ({
                let ru = old(self)@[u];
                let rv = old(self)@[v];
                let top = if old(self).rank_of(ru) > old(self).rank_of(rv) { ru } else { rv };
                let low = if top == ru { rv } else { ru };
                &&& final(self)@ == if ru == rv {
                    old(self)@
                } else {
                    old(self)@.map_values(|r: u32| if r == ru || r == rv { top } else { r })
                }
                &&& ru != rv ==> final(self).parent_of(low) == top
                &&& ru != rv ==> final(self).rank_of(top) == old(self).rank_of(top) + if old(
                    self,
                ).rank_of(ru) == old(self).rank_of(rv) {
                    1int
                } else {
                    0int
                }
                &&& forall|x: u32|
                    #![trigger final(self).rank_of(x)]
                    old(self)@.contains_key(x) && (ru == rv || x != top) ==> final(self).rank_of(x)
                        == old(self).rank_of(x)
            }),
    {
        let ghost pre = *self;
        let (u_rank, u_root) = self.find_set(u);
        let (v_rank, v_root) = self.find_set(v);
        if u_root == v_root {
            return;
        }
        let ghost mid = *self;
        let ghost top = if u_rank > v_rank { u_root } else { v_root };
        let ghost low = if u_rank > v_rank { v_root } else { u_root };
        proof {
            assert(mid.node(u));
            assert(mid.node(v));
            assert(mid.node(u_root));
            assert(mid.node(v_root));
            assert(mid.class(u_root).finite());
            assert(mid.class(v_root).finite());
            assert(pow2(u_rank as nat) <= mid.class(u_root).len());
            assert(pow2(v_rank as nat) <= mid.class(v_root).len());
            lemma_pow2_above(u_rank as nat + 1);
            assert(pow2(u_rank as nat + 1) == 2 * pow2(u_rank as nat));
            assert(mid.class(u_root).disjoint(mid.class(v_root)));
            lemma_set_disjoint_lens(mid.class(u_root), mid.class(v_root));
            assert(mid.class(u_root) + mid.class(v_root) <= mid.dom());
            lemma_len_subset(mid.class(u_root) + mid.class(v_root), mid.dom());
            lemma_u32_set_len(mid.dom());
        }
        if u_rank > v_rank {
            self.forest.insert(v_root, (v_rank, u_root));
        } else {
            self.forest.insert(u_root, (u_rank, v_root));
            if u_rank == v_rank {
                self.forest.insert(v_root, (v_rank + 1, v_root));
            }
        }
        self.rep = Ghost(
            mid.rep@.map_values(|r: u32| if r == u_root || r == v_root { top } else { r }),
        );
        proof {
            assert(self.dom() =~= mid.dom());
            assert(self.rep@.dom() =~= self.dom());
            assert(self.class(top) =~= mid.class(u_root) + mid.class(v_root));
            assert forall|x: u32| #[trigger] self.node(x) by {
                assert(mid.node(x));
                if mid.dom().contains(x) {
                    assert(mid.node(mid.parent_of(x)));
                    assert(mid.node(mid.rep@[x]));
                    if x != top && self.rep@[x] == x {
                        assert(self.class(x) =~= mid.class(x));
                    }
                }
            }
        }
    }
}

/// Two keys of `m` share a root exactly when the edges `t` connect them.
pub open spec fn partition_of(m: Map<u32, u32>, t: Seq<Edge>) -> bool {
    forall|x: u32, y: u32|
        m.contains_key(x) && m.contains_key(y) ==> ((m[x] == m[y]) == connected(t, x, y))
}

/// A new forest holds the partition of no edges.
pub proof fn lemma_partition_empty()
    ensures
        partition_of(Map::<u32, u32>::empty(), Seq::<Edge>::empty()),
{
}

/// Registering a vertex that no edge touches keeps the sets those of the
/// edges: the new vertex shares its set with nothing else.
pub proof fn lemma_partition_make_set(m: Map<u32, u32>, t: Seq<Edge>, v: u32)
    requires
        partition_of(m, t),
        forall|x: u32| #[trigger] m.contains_key(x) ==> m.contains_key(m[x]),
        !m.contains_key(v),
        !vertices(t).contains(v),
    ensures
        partition_of(m.insert(v, v), t),
{
    let m2 = m.insert(v, v);
    assert forall|x: u32, y: u32| m2.contains_key(x) && m2.contains_key(y) implies ((m2[x] == m2[y])
        == connected(t, x, y)) by {
        lemma_component_in_vertices(t, x);
        lemma_component_in_vertices(t, y);
        lemma_connected_symmetric(t, x, y);
        lemma_component_equiv(t, x, x);
        if x != v && y != v {
            assert(m2[x] == m[x] && m2[y] == m[y]);
        } else if x != v {
            assert(m.contains_key(m[x]));
        } else if y != v {
            assert(m.contains_key(m[y]));
        }
    }
}

/// A union as `DisjointForest::union` states it joins exactly the sets of
/// `e`'s ends: after it, two vertices share a set exactly when the edges,
/// `e` added, connect them.
pub proof fn lemma_partition_union(m: Map<u32, u32>, t: Seq<Edge>, e: Edge, top: u32)
    requires
        partition_of(m, t),
        m.contains_key(e.u),
        m.contains_key(e.v),
        top == m[e.u] || top == m[e.v],
    ensures
        partition_of(
            if m[e.u] == m[e.v] {
                m
            } else {
                m.map_values(|r: u32| if r == m[e.u] || r == m[e.v] { top } else { r })
            },
            t.push(e),
        ),
{
    let ru = m[e.u];
    let rv = m[e.v];
    let m2 = if ru == rv {
        m
    } else {
        m.map_values(|r: u32| if r == ru || r == rv { top } else { r })
    };
    assert forall|x: u32, y: u32| m2.contains_key(x) && m2.contains_key(y) implies ((m2[x] == m2[y])
        == connected(t.push(e), x, y)) by {
        lemma_connected_push(t, e, x, y);
        lemma_connected_symmetric(t, e.v, y);
        lemma_connected_symmetric(t, e.u, y);
        lemma_connected_symmetric(t, e.u, e.v);
        lemma_component_equiv(t, x, e.u);
        lemma_component_equiv(t, x, e.v);
        lemma_component_equiv(t, e.u, e.v);
    }
}

} // verus!
