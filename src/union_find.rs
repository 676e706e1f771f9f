use std::collections::HashMap;
use vstd::prelude::*;

verus! {

broadcast use vstd::std_specs::hash::group_hash_axioms;

/// A disjoint-set forest without ranks: each registered vertex maps to its
/// parent, and a root is its own parent.
///
/// The ghost map `rep` gives each vertex's root; the ghost `level` grows
/// strictly from a vertex to its parent, which bounds every walk to a root.
pub struct UnionFind {
    parent: HashMap<u32, u32>,
    rep: Ghost<Map<u32, u32>>,
    level: Ghost<Map<u32, nat>>,
}

impl UnionFind {
    /// The registered vertices, each mapped to the root of its set.
    pub closed spec fn view(&self) -> Map<u32, u32> {
        self.rep@
    }

    spec fn dom(&self) -> Set<u32> {
        self.parent@.dom()
    }

    spec fn node(&self, x: u32) -> bool {
        self.dom().contains(x) ==> {
            &&& self.dom().contains(self.parent@[x])
            &&& self.dom().contains(self.rep@[x])
            &&& self.parent@[self.rep@[x]] == self.rep@[x]
            &&& self.rep@[self.parent@[x]] == self.rep@[x]
            &&& (self.parent@[x] == x ==> self.rep@[x] == x)
            &&& (self.parent@[x] != x ==> self.level@[self.parent@[x]] > self.level@[x])
            &&& (self.rep@[x] != x ==> self.level@[self.rep@[x]] > self.level@[x])
        }
    }

    /// Parents and roots are registered, and the roots are consistent.
    pub closed spec fn wf(&self) -> bool {
        &&& self.rep@.dom() == self.dom()
        &&& self.level@.dom() == self.dom()
        &&& forall|x: u32| #[trigger] self.node(x)
    }

    pub fn new() -> (r: UnionFind)
        ensures
            r.wf(),
            r@ == Map::<u32, u32>::empty(),
    {
        let r = UnionFind { parent: HashMap::new(), rep: Ghost(Map::empty()), level: Ghost(Map::empty()) };
        proof {
            assert(r.dom() =~= Set::empty());
            assert(r.rep@.dom() =~= r.dom());
            assert(r.level@.dom() =~= r.dom());
        }
        r
    }

    /// Whether `v` has been registered.
    pub fn contains(&self, v: u32) -> (r: bool)
        requires
            self.wf(),
        ensures
            r == self@.contains_key(v),
    {
        self.parent.contains_key(&v)
    }

    /// Registers `v` as a set of its own.
    pub fn make_set(&mut self, v: u32)
        requires
            old(self).wf(),
            !old(self)@.contains_key(v),
        ensures
            final(self).wf(),
            final(self)@ == old(self)@.insert(v, v),
    {
        let ghost pre = *self;
        self.parent.insert(v, v);
        self.rep = Ghost(self.rep@.insert(v, v));
        self.level = Ghost(self.level@.insert(v, 0));
        proof {
            assert(self.dom() =~= pre.dom().insert(v));
            assert(self.rep@.dom() =~= self.dom());
            assert(self.level@.dom() =~= self.dom());
            assert forall|x: u32| #[trigger] self.node(x) by {
                if x != v {
                    assert(pre.node(x));
                }
            }
        }
    }

    /// The root of the set of `v`.
    pub fn find(&self, v: u32) -> (r: u32)
        requires
            self.wf(),
            self@.contains_key(v),
        ensures
            r == self@[v],
    {
        let mut current = v;
        loop
            invariant
                self.wf(),
                self.dom().contains(current),
                self.rep@[current] == self.rep@[v],
            decreases self.level@[self.rep@[v]] - self.level@[current],
        {
            proof {
                assert(self.node(current));
                assert(self.node(self.parent@[current]));
            }
            let p = *self.parent.get(&current).unwrap();
            if p == current {
                return current;
            }
            current = p;
        }
    }

    /// Merges the sets of `a` and `b`: the root of `a`'s set goes under the
    /// root of `b`'s. Nothing changes when they already share a set.
    pub fn union(&mut self, a: u32, b: u32)
        requires
            old(self).wf(),
            old(self)@.contains_key(a),
            old(self)@.contains_key(b),
        ensures
            final(self).wf(),
            old(self)@[a] == old(self)@[b] ==> *final(self) == *old(self),
            final(self)@ == old(self)@.map_values(
                |r: u32| if r == old(self)@[a] { old(self)@[b] } else { r },
            ),
    {
        let ghost pre = *self;
        let a_root = self.find(a);
        let b_root = self.find(b);
        if a_root == b_root {
            proof {
                assert(pre.node(a));
                assert(self.rep@.map_values(|r: u32| if r == a_root { b_root } else { r }) =~= self.rep@);
            }
            return;
        }
        proof {
            assert(pre.node(a));
            assert(pre.node(b));
            assert(pre.node(a_root));
            assert(pre.node(b_root));
        }
        self.parent.insert(a_root, b_root);
        let ghost top = if pre.level@[b_root] > pre.level@[a_root] {
            pre.level@[b_root]
        } else {
            pre.level@[a_root] + 1
        };
        self.rep = Ghost(pre.rep@.map_values(|r: u32| if r == a_root { b_root } else { r }));
        self.level = Ghost(pre.level@.insert(b_root, top));
        proof {
            assert(self.dom() =~= pre.dom());
            assert(self.rep@.dom() =~= self.dom());
            assert(self.level@.dom() =~= self.dom());
            assert forall|x: u32| #[trigger] self.node(x) by {
                assert(pre.node(x));
                if pre.dom().contains(x) {
                    assert(pre.node(pre.parent@[x]));
                    assert(pre.node(pre.rep@[x]));
                }
            }
        }
    }
}

} // verus!
