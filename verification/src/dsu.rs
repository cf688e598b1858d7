//! Disjoint sets over the elements `0..n`, kept as a forest with path
//! compression; merges hang the smaller set under the larger.

use crate::partition::{
    lemma_members_bounded, lemma_relabel_members, members, relabel, singletons, unite,
};
use vstd::arithmetic::power2::{lemma_pow2_strictly_increases, lemma_pow2_unfold, pow2};
use vstd::prelude::*;

verus! {

/// Disjoint Set Union data structure.
pub struct Dsu {
    nodes: usize,
    parent: Vec<usize>,
    /// the size of a particular set, kept at its root
    sz: Vec<usize>,
    /// the representative of every element
    reps: Ghost<Seq<int>>,
    /// a rank that strictly rises from every element to its parent, and that
    /// a root can only have with a set of two to the power of it elements
    rank: Ghost<Seq<nat>>,
}

impl View for Dsu {
    type V = Seq<int>;

    /// The partition: for every element its representative, the root of its tree.
    closed spec fn view(&self) -> Seq<int> {
        self.reps@
    }
}

impl Dsu {
    /// The parent of `x` in the forest; a root is its own parent.
    pub closed spec fn parent_of(&self, x: int) -> int {
        self.parent@[x] as int
    }

    /// The number stored as the size of `x`; it is kept up to date at roots only.
    pub closed spec fn size_of(&self, x: int) -> int {
        self.sz@[x] as int
    }

    /// The measure by which the forest is free of cycles: it strictly drops
    /// from every element to its parent.
    pub closed spec fn depth_of(&self, x: int) -> nat {
        (self.rank@[self.reps@[x]] - self.rank@[x]) as nat
    }

    /// The number of links on the chain of parents from `x` to its root.
    pub open spec fn hops(&self, x: int) -> nat
        decreases self.depth_of(x),
    {
        if self.depth_of(self.parent_of(x)) < self.depth_of(x) {
            1 + self.hops(self.parent_of(x))
        } else {
            0
        }
    }

    /// Whether `y` lies on the chain of parents that leads from `x` to its root,
    /// both ends included.
    pub open spec fn on_path(&self, x: int, y: int) -> bool
        decreases self.depth_of(x),
    {
        y == x || (self.depth_of(self.parent_of(x)) < self.depth_of(x) && self.on_path(
            self.parent_of(x),
            y,
        ))
    }

    /// What well-formedness asks of the element `x`.
    pub closed spec fn ok_at(&self, x: int) -> bool {
        &&& 0 <= self.reps@[x] < self.nodes
        &&& self.parent@[x] < self.nodes
        &&& self.parent@[self.reps@[x]] == self.reps@[x]
        &&& (self.parent@[x] == x ==> self.reps@[x] == x)
        &&& (self.parent@[x] != x ==> self.reps@[self.parent@[x] as int] == self.reps@[x]
            && self.rank@[self.parent@[x] as int] > self.rank@[x])
        &&& (self.reps@[x] != x ==> self.rank@[self.reps@[x]] > self.rank@[x])
        &&& (self.reps@[x] == x ==> self.sz@[x] == members(self.reps@, x).len() && pow2(
            self.rank@[x],
        ) <= self.sz@[x])
    }

    /// The forest is well formed: parents stay in range and lead, without
    /// cycles, to the representative, and every root stores the size of its set.
    pub closed spec fn wf(&self) -> bool {
        &&& self.parent@.len() == self.nodes
        &&& self.sz@.len() == self.nodes
        &&& self.reps@.len() == self.nodes
        &&& self.rank@.len() == self.nodes
        &&& forall|x: int| 0 <= x < self.nodes ==> #[trigger] self.ok_at(x)
    }

    /// In a well-formed forest every representative is an element, represents
    /// itself, and is the only element of its set that is its own parent.
    pub proof fn lemma_representatives(&self)
        requires
            self.wf(),
        ensures
            forall|x: int|
                0 <= x < self@.len() ==> 0 <= #[trigger] self@[x] < self@.len() && self@[self@[x]]
                    == self@[x],
            forall|x: int|
                0 <= x < self@.len() ==> (#[trigger] self.parent_of(x) == x <==> self@[x] == x),
            forall|x: int|
                0 <= x < self@.len() ==> 0 <= #[trigger] self.parent_of(x) < self@.len()
                    && self@[self.parent_of(x)] == self@[x],
    {
        assert forall|x: int| 0 <= x < self@.len() implies 0 <= #[trigger] self@[x] < self@.len()
            && self@[self@[x]] == self@[x] by {
            assert(self.ok_at(x));
            assert(self.ok_at(self.reps@[x]));
        }
        assert forall|x: int| 0 <= x < self@.len() implies (#[trigger] self.parent_of(x) == x
            <==> self@[x] == x) by {
            assert(self.ok_at(x));
        }
        assert forall|x: int| 0 <= x < self@.len() implies 0 <= #[trigger] self.parent_of(x)
            < self@.len() && self@[self.parent_of(x)] == self@[x] by {
            assert(self.ok_at(x));
        }
    }

    /// The size stored at a root is the number of elements that the root
    /// represents.
    pub proof fn lemma_root_size(&self, r: int)
        requires
            self.wf(),
            0 <= r < self@.len(),
            self@[r] == r,
        ensures
            self.size_of(r) == members(self@, r).len(),
    {
        assert(self.ok_at(r));
    }

    /// The parent of an element that is not a root is an element of the same
    /// set, and the measure drops on the way to it.
    pub proof fn lemma_parent(&self, x: int)
        requires
            self.wf(),
            0 <= x < self@.len(),
        ensures
            0 <= self.parent_of(x) < self@.len(),
            self@[self.parent_of(x)] == self@[x],
            self.parent_of(x) != x ==> self.depth_of(self.parent_of(x)) < self.depth_of(x),
            self.parent_of(x) == x ==> self.hops(x) == 0,
            self.parent_of(x) != x ==> self.hops(x) == 1 + self.hops(self.parent_of(x)),
    {
        assert(self.ok_at(x));
        assert(self.ok_at(self.parent_of(x)));
    }

    /// The rank of an element and the links from it to its root together do not
    /// exceed the rank of the root.
    proof fn lemma_hops_below_rank(&self, x: int)
        requires
            self.wf(),
            0 <= x < self@.len(),
        ensures
            self.hops(x) + self.rank@[x] <= self.rank@[self@[x]],
        decreases self.depth_of(x),
    {
        self.lemma_parent(x);
        assert(self.ok_at(x));
        if self.parent_of(x) != x {
            self.lemma_hops_below_rank(self.parent_of(x));
        }
    }

    /// Because the smaller set always goes under the larger, chains stay
    /// short: a set has at least two to the power of `k` elements if one of its
    /// elements is `k` links away from the root. No chain is longer than the
    /// logarithm of the number of elements.
    pub proof fn lemma_short_chains(&self, x: int)
        requires
            self.wf(),
            0 <= x < self@.len(),
        ensures
            pow2(self.hops(x)) <= members(self@, self@[x]).len(),
            pow2(self.hops(x)) <= self@.len(),
    {
        let r = self@[x];
        self.lemma_hops_below_rank(x);
        assert(self.ok_at(x));
        assert(self.ok_at(r));
        if self.hops(x) < self.rank@[r] {
            lemma_pow2_strictly_increases(self.hops(x), self.rank@[r]);
        }
        lemma_members_bounded(self@, r);
    }

    /// Every element on the chain from `x` to its root is an element with the
    /// representative of `x`, no deeper than `x`.
    pub proof fn lemma_on_path(&self, x: int, y: int)
        requires
            self.wf(),
            0 <= x < self@.len(),
            self.on_path(x, y),
        ensures
            0 <= y < self@.len(),
            self@[y] == self@[x],
            self.depth_of(y) <= self.depth_of(x),
        decreases self.depth_of(x),
    {
        if y != x {
            self.lemma_parent(x);
            self.lemma_on_path(self.parent_of(x), y);
        }
    }

    /// The chain from `x` to its root, once it has reached `y`, goes on to the
    /// parent of `y`.
    pub proof fn lemma_on_path_step(&self, x: int, y: int)
        requires
            self.wf(),
            0 <= x < self@.len(),
            self.on_path(x, y),
        ensures
            self.on_path(x, self.parent_of(y)),
        decreases self.depth_of(x),
    {
        self.lemma_on_path(x, y);
        self.lemma_parent(x);
        if y == x {
            let p = self.parent_of(x);
            if p != x {
                assert(self.on_path(p, p));
            }
        } else {
            self.lemma_on_path_step(self.parent_of(x), y);
        }
    }

    /// The chain from `x` to its root ends at the representative of `x`.
    pub proof fn lemma_root_on_path(&self, x: int)
        requires
            self.wf(),
            0 <= x < self@.len(),
        ensures
            self.on_path(x, self@[x]),
        decreases self.depth_of(x),
    {
        self.lemma_parent(x);
        assert(self.ok_at(x));
        if self.parent_of(x) != x {
            self.lemma_root_on_path(self.parent_of(x));
        }
    }

    /// The chain from `x` to its root holds the chain from each of its
    /// elements to the root.
    pub proof fn lemma_on_path_trans(&self, x: int, y: int, z: int)
        requires
            self.wf(),
            0 <= x < self@.len(),
            self.on_path(x, y),
            self.on_path(y, z),
        ensures
            self.on_path(x, z),
        decreases self.depth_of(x),
    {
        if y != x {
            self.lemma_parent(x);
            self.lemma_on_path_trans(self.parent_of(x), y, z);
        }
    }

    /// `after` is this forest with the chain from `a` to its root linked
    /// directly to that root, and nothing else changed.
    pub open spec fn compressed_to(&self, after: &Dsu, a: int) -> bool {
        &&& self.wf()
        &&& after.wf()
        &&& after@ == self@
        &&& 0 <= a < self@.len()
        &&& forall|z: int|
            0 <= z < self@.len() ==> #[trigger] after.depth_of(z) == self.depth_of(z)
        &&& forall|z: int|
            0 <= z < self@.len() ==> #[trigger] after.parent_of(z) == if self.on_path(a, z) {
                self@[a]
            } else {
                self.parent_of(z)
            }
    }

    /// After the chain from `a` was compressed, the chain from `x` holds
    /// nothing new, and what it has lost lies on the chain from `a`.
    pub proof fn lemma_paths_after_find(&self, after: &Dsu, a: int, x: int, y: int)
        requires
            self.compressed_to(after, a),
            0 <= x < self@.len(),
        ensures
            after.on_path(x, y) ==> self.on_path(x, y),
            self.on_path(x, y) ==> after.on_path(x, y) || self.on_path(a, y),
        decreases self.depth_of(x),
    {
        self.lemma_parent(x);
        after.lemma_parent(x);
        assert(self.ok_at(x));
        assert(after.ok_at(x));
        let above = self.parent_of(x);
        let above_now = after.parent_of(x);
        assert(after.depth_of(x) == self.depth_of(x));
        assert(after.depth_of(above) == self.depth_of(above));
        if self.on_path(a, x) {
            self.lemma_on_path(a, x);
            if after.on_path(x, y) && y != x {
                // the chain from `x` is now `x` and the root
                assert(above_now == self@[a]);
                assert(after.ok_at(above_now));
                assert(after.parent_of(above_now) == above_now);
                assert(after.on_path(above_now, y));
                assert(y == above_now);
                self.lemma_root_on_path(x);
            }
            if self.on_path(x, y) {
                self.lemma_on_path_trans(a, x, y);
            }
        } else {
            assert(above_now == above);
            if above != x {
                self.lemma_paths_after_find(after, a, above, y);
            }
        }
    }

    /// Creates `nodes` sets of one element each.
    pub fn new(nodes: usize) -> (d: Self)
        ensures
            d.wf(),
            d@ == singletons(nodes as nat),
            forall|x: int| 0 <= x < nodes ==> #[trigger] d.parent_of(x) == x,
            forall|x: int| 0 <= x < nodes ==> #[trigger] d.size_of(x) == 1,
    {
        let mut parent: Vec<usize> = Vec::with_capacity(nodes);
        let mut sz: Vec<usize> = Vec::with_capacity(nodes);
        let mut k: usize = 0;
        while k < nodes
            invariant
                k <= nodes,
                parent@.len() == k,
                sz@.len() == k,
                forall|x: int| 0 <= x < k ==> parent@[x] == x && sz@[x] == 1,
            decreases nodes - k,
        {
            parent.push(k);
            sz.push(1);
            k += 1;
        }
        let ghost reps = singletons(nodes as nat);
        let d = Dsu {
            nodes,
            parent,
            sz,
            reps: Ghost(reps),
            rank: Ghost(Seq::new(nodes as nat, |x: int| 0nat)),
        };
        proof {
            vstd::arithmetic::power2::lemma2_to64();
            assert forall|x: int| 0 <= x < nodes implies #[trigger] d.ok_at(x) by {
                assert(members(reps, x) =~= set![x]);
            }
        }
        d
    }

    /// The parent of `node` in the forest; a root is its own parent.
    pub fn parent(&self, node: usize) -> (p: usize)
        requires
            self.wf(),
            node < self@.len(),
        ensures
            p == self.parent_of(node as int),
    {
        self.parent[node]
    }

    /// The size stored for `node`: at a root, the number of elements of its set.
    pub fn size(&self, node: usize) -> (s: usize)
        requires
            self.wf(),
            node < self@.len(),
        ensures
            s == self.size_of(node as int),
            self@[node as int] == node ==> s == members(self@, node as int).len(),
    {
        proof {
            assert(self.ok_at(node as int));
        }
        self.sz[node]
    }

    /// Resolves `node` to the representative of its set and links every element
    /// on the chain from `node` to that root directly to it. The partition
    /// stays as it is.
    pub fn find_parent(&mut self, node: usize) -> (root: usize)
        requires
            old(self).wf(),
            node < old(self)@.len(),
        ensures
            final(self).wf(),
            final(self)@ == old(self)@,
            root == old(self)@[node as int],
            forall|y: int|
                0 <= y < old(self)@.len() ==> #[trigger] final(self).parent_of(y) == if old(
                    self,
                ).on_path(node as int, y) {
                    root as int
                } else {
                    old(self).parent_of(y)
                },
            forall|y: int|
                0 <= y < old(self)@.len() ==> #[trigger] final(self).size_of(y) == old(
                    self,
                ).size_of(y),
            forall|y: int|
                0 <= y < old(self)@.len() ==> #[trigger] final(self).depth_of(y) == old(
                    self,
                ).depth_of(y),
    {
        let ghost before = *self;
        let mut root: usize = node;
        while self.parent[root] != root
            invariant
                *self == before,
                self.wf(),
                node < self.nodes,
                root < self.nodes,
                self.reps@[root as int] == self.reps@[node as int],
                before.on_path(node as int, root as int),
            decreases self.depth_of(root as int),
        {
            proof {
                assert(self.ok_at(root as int));
                self.lemma_parent(root as int);
                before.lemma_on_path_step(node as int, root as int);
            }
            root = self.parent[root];
        }
        proof {
            assert(self.ok_at(root as int));
        }
        let mut cur: usize = node;
        while cur != root
            invariant
                before.wf(),
                self.wf(),
                self.nodes == before.nodes,
                self.reps == before.reps,
                self.rank == before.rank,
                self.sz == before.sz,
                node < self.nodes,
                cur < self.nodes,
                root < self.nodes,
                self.reps@[cur as int] == root,
                self.reps@[root as int] == root,
                before.on_path(node as int, cur as int),
                before.on_path(node as int, root as int),
                forall|y: int|
                    0 <= y < self.nodes ==> #[trigger] self.parent@[y] == if before.on_path(
                        node as int,
                        y,
                    ) && !before.on_path(cur as int, y) {
                        root
                    } else {
                        before.parent@[y]
                    },
            decreases self.depth_of(cur as int),
        {
            proof {
                assert(self.ok_at(cur as int));
                assert(before.ok_at(cur as int));
                before.lemma_parent(cur as int);
                assert(self.parent@[cur as int] == before.parent@[cur as int]);
                before.lemma_on_path_step(node as int, cur as int);
            }
            let ghost mid = *self;
            let next: usize = self.parent[cur];
            self.parent.set(cur, root);
            proof {
                assert(next == before.parent@[cur as int]);
                assert forall|y: int| 0 <= y < self.nodes implies #[trigger] self.parent@[y]
                    == if before.on_path(node as int, y) && !before.on_path(next as int, y) {
                    root
                } else {
                    before.parent@[y]
                } by {
                    if y == cur {
                        if before.on_path(next as int, cur as int) {
                            before.lemma_on_path(next as int, cur as int);
                        }
                    }
                }
                assert forall|x: int| 0 <= x < self.nodes implies #[trigger] self.ok_at(x) by {
                    assert(mid.ok_at(x));
                    assert(mid.ok_at(cur as int));
                    assert(mid.ok_at(mid.reps@[x]));
                }
            }
            cur = next;
        }
        proof {
            assert forall|y: int| 0 <= y < before@.len() implies #[trigger] self.parent_of(y)
                == if before.on_path(node as int, y) {
                root as int
            } else {
                before.parent_of(y)
            } by {
                assert(before.ok_at(root as int));
            }
        }
        root
    }

    /// Resolves both elements to their representatives, compressing both chains.
    fn find_both(&mut self, node_a: usize, node_b: usize) -> (roots: (usize, usize))
        requires
            old(self).wf(),
            node_a < old(self)@.len(),
            node_b < old(self)@.len(),
        ensures
            final(self).wf(),
            final(self)@ == old(self)@,
            roots.0 == old(self)@[node_a as int],
            roots.1 == old(self)@[node_b as int],
            forall|y: int|
                0 <= y < old(self)@.len() ==> #[trigger] final(self).parent_of(y) == old(
                    self,
                ).parent_after_finds(node_a as int, node_b as int, y),
            forall|y: int|
                0 <= y < old(self)@.len() ==> #[trigger] final(self).size_of(y) == old(
                    self,
                ).size_of(y),
            forall|y: int|
                0 <= y < old(self)@.len() ==> #[trigger] final(self).depth_of(y) == old(
                    self,
                ).depth_of(y),
    {
        let ghost before = *self;
        let root_a = self.find_parent(node_a);
        let ghost between = *self;
        let root_b = self.find_parent(node_b);
        proof {
            assert(before.compressed_to(&between, node_a as int));
            assert forall|y: int| 0 <= y < before@.len() implies #[trigger] self.parent_of(y)
                == before.parent_after_finds(node_a as int, node_b as int, y) by {
                before.lemma_paths_after_find(&between, node_a as int, node_b as int, y);
                if before.on_path(node_a as int, y) {
                    before.lemma_on_path(node_a as int, y);
                }
                if before.on_path(node_b as int, y) {
                    before.lemma_on_path(node_b as int, y);
                }
            }
        }
        (root_a, root_b)
    }

    /// The parent of `y` once the chains from `a` and from `b` have been
    /// compressed: the representative, where `y` lies on one of the chains,
    /// and the parent it had elsewhere.
    pub open spec fn parent_after_finds(&self, a: int, b: int, y: int) -> int {
        if self.on_path(a, y) {
            self@[a]
        } else if self.on_path(b, y) {
            self@[b]
        } else {
            self.parent_of(y)
        }
    }

    /// Whether `node_a` and `node_b` lie in the same set. Both chains are
    /// compressed on the way; the partition stays as it is.
    pub fn same_set(&mut self, node_a: usize, node_b: usize) -> (same: bool)
        requires
            old(self).wf(),
            node_a < old(self)@.len(),
            node_b < old(self)@.len(),
        ensures
            final(self).wf(),
            final(self)@ == old(self)@,
            same == (old(self)@[node_a as int] == old(self)@[node_b as int]),
            forall|y: int|
                0 <= y < old(self)@.len() ==> #[trigger] final(self).parent_of(y) == old(
                    self,
                ).parent_after_finds(node_a as int, node_b as int, y),
            forall|y: int|
                0 <= y < old(self)@.len() ==> #[trigger] final(self).size_of(y) == old(
                    self,
                ).size_of(y),
            forall|y: int|
                0 <= y < old(self)@.len() ==> #[trigger] final(self).depth_of(y) == old(
                    self,
                ).depth_of(y),
    {
        let roots = self.find_both(node_a, node_b);
        roots.0 == roots.1
    }

    /// Small to large merge between two sets.
    ///
    /// Returns `true` if a merge occurred, that is, if `node_a` and `node_b`
    /// were not in the same set before. The root of the smaller set is hung
    /// under the root of the larger and hands its size over; on equal sizes
    /// the root of `node_a` goes under the root of `node_b`. Both chains are
    /// compressed on the way.
    pub fn merge(&mut self, node_a: usize, node_b: usize) -> (merged: bool)
        requires
            old(self).wf(),
            node_a < old(self)@.len(),
            node_b < old(self)@.len(),
        ensures
            final(self).wf(),
            final(self)@ == unite(old(self)@, node_a as int, node_b as int),
            merged == (old(self)@[node_a as int] != old(self)@[node_b as int]),
            final(self)@[node_a as int] == final(self)@[node_b as int],
            forall|y: int|
                0 <= y < old(self)@.len() ==> #[trigger] final(self).parent_of(y) == if merged
                    && y == old(self).loser(node_a as int, node_b as int) {
                    old(self).winner(node_a as int, node_b as int)
                } else {
                    old(self).parent_after_finds(node_a as int, node_b as int, y)
                },
            forall|y: int|
                0 <= y < old(self)@.len() ==> #[trigger] final(self).size_of(y) == if merged && y
                    == old(self).winner(node_a as int, node_b as int) {
                    old(self).size_of(old(self)@[node_a as int]) + old(self).size_of(
                        old(self)@[node_b as int],
                    )
                } else {
                    old(self).size_of(y)
                },
    {
        let ghost before = *self;
        proof {
            before.lemma_representatives();
        }
        let (a_parent, b_parent) = self.find_both(node_a, node_b);
        proof {
            self.lemma_representatives();
        }
        if a_parent == b_parent {
            return false;
        }
        proof {
            self.lemma_root_size(a_parent as int);
            self.lemma_root_size(b_parent as int);
            before.lemma_root_size(a_parent as int);
            before.lemma_root_size(b_parent as int);
        }
        if self.sz[a_parent] > self.sz[b_parent] {
            self.link(b_parent, a_parent);
        } else {
            self.link(a_parent, b_parent);
        }
        true
    }

    /// The root that stays a root when the sets of `a` and `b` are merged:
    /// that of the strictly larger set, and that of `b` on equal sizes.
    pub open spec fn winner(&self, a: int, b: int) -> int {
        if members(self@, self@[a]).len() > members(self@, self@[b]).len() {
            self@[a]
        } else {
            self@[b]
        }
    }

    /// The root that is hung under the other when the sets of `a` and `b`
    /// are merged.
    pub open spec fn loser(&self, a: int, b: int) -> int {
        if members(self@, self@[a]).len() > members(self@, self@[b]).len() {
            self@[b]
        } else {
            self@[a]
        }
    }

    /// Hangs the root `loser` under the different root `winner`.
    fn link(&mut self, loser: usize, winner: usize)
        requires
            old(self).wf(),
            loser < old(self)@.len(),
            winner < old(self)@.len(),
            loser != winner,
            old(self)@[loser as int] == loser,
            old(self)@[winner as int] == winner,
            old(self).size_of(loser as int) <= old(self).size_of(winner as int),
        ensures
            final(self).wf(),
            final(self)@ == relabel(old(self)@, loser as int, winner as int),
            forall|y: int|
                0 <= y < old(self)@.len() ==> #[trigger] final(self).parent_of(y) == if y == loser {
                    winner as int
                } else {
                    old(self).parent_of(y)
                },
            forall|y: int|
                0 <= y < old(self)@.len() ==> #[trigger] final(self).size_of(y) == if y == winner {
                    old(self).size_of(winner as int) + old(self).size_of(loser as int)
                } else {
                    old(self).size_of(y)
                },
    {
        let ghost before = *self;
        let ghost reps = self.reps@;
        let ghost after = relabel(reps, loser as int, winner as int);
        proof {
            assert(self.ok_at(loser as int));
            assert(self.ok_at(winner as int));
            lemma_relabel_members(reps, loser as int, winner as int);
            lemma_members_bounded(after, winner as int);
        }
        let grown: usize = self.sz[winner] + self.sz[loser];
        self.sz.set(winner, grown);
        self.parent.set(loser, winner);
        proof {
            let raised = if before.rank@[winner as int] > before.rank@[loser as int] {
                before.rank@[winner as int]
            } else {
                before.rank@[loser as int] + 1
            };
            self.reps = Ghost(after);
            self.rank = Ghost(before.rank@.update(winner as int, raised));
            lemma_pow2_unfold(before.rank@[loser as int] + 1);
            assert forall|x: int| 0 <= x < self.nodes implies #[trigger] self.ok_at(x) by {
                assert(before.ok_at(x));
                assert(before.ok_at(reps[x]));
                assert(before.ok_at(before.parent@[x] as int));
                assert(before.ok_at(loser as int));
                assert(before.ok_at(winner as int));
                if after[x] == x && x != winner {
                    assert(members(after, x) == members(reps, x));
                }
            }
        }
    }
}

} // verus!
