//! Wilson's algorithm: the tree starts as one room; from every room outside
//! it a random walk sets out, loses each loop as soon as it closes one, and is
//! added to the tree when it reaches it.

use crate::carve::{marked, pos, shift};
use crate::lattice::{
    adjacent, cols, is_room, lemma_tree_seed, lemma_tree_spans, perfect, rooms, rows, tree_over,
    untouched,
};
use crate::matrix::Matrix;
use crate::rand::RandomSource;
use crate::Maze;
use vstd::prelude::*;

verus! {

/// How many random steps a walk may take for every cell of the grid before it
/// heads straight for the first room of the tree.
pub const WALK_FACTOR: usize = 64;

/// The room at place `k` of the walk is outside `t`, and the room after it
/// lies next to it.
pub open spec fn hop(path: Seq<(usize, usize)>, t: Set<(int, int)>, k: int) -> bool {
    adjacent(pos(path[k]), pos(path[k + 1])) && !t.contains(pos(path[k]))
}

/// A walk that has lost its loops: rooms of the grid, each next to the one
/// before it, no room twice, and none but possibly the last in `t`.
pub open spec fn is_branch(path: Seq<(usize, usize)>, t: Set<(int, int)>, h: int, w: int) -> bool {
    &&& path.len() >= 1
    &&& forall|k: int| 0 <= k < path.len() ==> is_room(h, w, pos(#[trigger] path[k]))
    &&& forall|k: int| 0 <= k < path.len() - 1 ==> #[trigger] hop(path, t, k)
    &&& path.no_duplicates()
}

/// The number of steps between two rooms when no wall is in the way.
pub open spec fn distance(a: (int, int), b: (int, int)) -> nat {
    vstd::math::abs(a.0 - b.0) + vstd::math::abs(a.1 - b.1)
}

/// The rooms of the walk from place `from` on.
pub open spec fn trail(path: Seq<(usize, usize)>, from: int) -> Set<(int, int)> {
    Set::new(|c: (int, int)| exists|l: int| from <= l < path.len() && pos(#[trigger] path[l]) == c)
}

/// The rooms from one place earlier on are the same and the room at that place.
pub proof fn lemma_trail_back(path: Seq<(usize, usize)>, from: int)
    requires
        0 < from <= path.len(),
    ensures
        trail(path, from - 1) == trail(path, from).insert(pos(path[from - 1])),
{
    let longer = trail(path, from - 1);
    let shorter = trail(path, from).insert(pos(path[from - 1]));
    assert forall|c: (int, int)| longer.contains(c) <==> shorter.contains(c) by {
        if longer.contains(c) {
            let l = choose|l: int| from - 1 <= l < path.len() && pos(#[trigger] path[l]) == c;
            if l >= from {
                assert(trail(path, from).contains(c));
            }
        }
        if trail(path, from).contains(c) {
            let l = choose|l: int| from <= l < path.len() && pos(#[trigger] path[l]) == c;
            assert(from - 1 <= l < path.len() && pos(path[l]) == c);
        }
        if c == pos(path[from - 1]) {
            assert(from - 1 <= from - 1 < path.len() && pos(path[from - 1]) == c);
        }
    }
    assert(longer =~= shorter);
}

/// Where `cell` stands in `path`, if it does.
pub fn position(path: &Vec<(usize, usize)>, cell: (usize, usize)) -> (found: Option<usize>)
    ensures
        match found {
            Some(k) => k < path@.len() && path@[k as int] == cell && forall|l: int|
                0 <= l < k ==> path@[l] != cell,
            None => forall|l: int| 0 <= l < path@.len() ==> path@[l] != cell,
        },
{
    let mut k: usize = 0;
    while k < path.len()
        invariant
            k <= path@.len(),
            forall|l: int| 0 <= l < k ==> path@[l] != cell,
        decreases path@.len() - k,
    {
        if path[k].0 == cell.0 && path[k].1 == cell.1 {
            return Some(k);
        }
        k += 1;
    }
    None
}

/// The walk after a step to `next`: cut back to its first visit of `next`
/// where it has been there before, which erases the loop that the step
/// closes, and longer by `next` where it has not.
pub open spec fn stepped(path: Seq<(usize, usize)>, next: (usize, usize)) -> Seq<(usize, usize)> {
    match path.index_of_first(next) {
        Some(k) => path.subrange(0, k + 1),
        None => path.push(next),
    }
}

/// A step from the last room of a loop-erased walk, which is outside `t`, to
/// a room next to it leaves a loop-erased walk that starts where it did and
/// ends in that room.
pub proof fn lemma_stepped(
    path: Seq<(usize, usize)>,
    next: (usize, usize),
    t: Set<(int, int)>,
    h: int,
    w: int,
)
    requires
        is_branch(path, t, h, w),
        !t.contains(pos(path.last())),
        is_room(h, w, pos(next)),
        adjacent(pos(path.last()), pos(next)),
    ensures
        is_branch(stepped(path, next), t, h, w),
        stepped(path, next).last() == next,
        stepped(path, next)[0] == path[0],
{
    let after = stepped(path, next);
    path.index_of_first_ensures(next);
    assert forall|i: int| 0 <= i < after.len() - 1 implies #[trigger] hop(after, t, i) by {
        if i < path.len() - 1 {
            assert(hop(path, t, i));
        }
    }
}

/// Moves the walk on to the room `next`. Where the walk has been at `next`
/// before, the loop that this closes is erased: the walk is cut back to its
/// first visit of `next`.
pub fn step_to(path: &mut Vec<(usize, usize)>, next: (usize, usize))
    ensures
        final(path)@ == stepped(old(path)@, next),
{
    let ghost before = path@;
    proof {
        before.index_of_first_ensures(next);
    }
    match position(path, next) {
        Some(k) => {
            assert(k < path.len());
            path.truncate(k + 1);
            proof {
                let f = before.index_of_first(next);
                assert(before.contains(next));
                let m = f->0;
                if m < k {
                    assert(before[m] != next);
                }
            }
        },
        None => {
            path.push(next);
            proof {
                if before.contains(next) {
                    let m = choose|m: int| 0 <= m < before.len() && before[m] == next;
                    assert(before[m] != next);
                }
            }
        },
    }
}

/// A loop-erased random walk from the room `start` outside the tree to the
/// tree, whose rooms `in_tree` marks and whose first room is `root`.
///
/// Every step goes to a neighbouring room in a direction drawn from `rng`; a
/// direction that leaves the grid is drawn again. A walk that has not reached
/// the tree after `WALK_FACTOR` draws for every cell of the grid goes on
/// towards `root`, first along its column and then along its row.
pub fn erased_walk<R: RandomSource>(
    in_tree: &Matrix<bool>,
    start: (usize, usize),
    root: (usize, usize),
    rng: &mut R,
) -> (path: Vec<(usize, usize)>)
    requires
        in_tree.wf(),
        is_room(rows(in_tree@), cols(in_tree@), pos(start)),
        is_room(rows(in_tree@), cols(in_tree@), pos(root)),
        !marked(in_tree@).contains(pos(start)),
        marked(in_tree@).contains(pos(root)),
    ensures
        is_branch(path@, marked(in_tree@), rows(in_tree@), cols(in_tree@)),
        path@.len() >= 2,
        path@[0] == start,
        marked(in_tree@).contains(pos(path@.last())),
{
    let ghost h = rows(in_tree@);
    let ghost w = cols(in_tree@);
    let ghost t = marked(in_tree@);
    proof {
        in_tree.lemma_fits();
    }
    let mut path: Vec<(usize, usize)> = Vec::new();
    path.push(start);
    let mut cur = start;
    let mut arrived = false;
    let mut budget: usize = walk_budget(in_tree);
    while !arrived && budget > 0
        invariant
            in_tree.wf(),
            h == rows(in_tree@),
            w == cols(in_tree@),
            t == marked(in_tree@),
            h <= usize::MAX,
            w <= usize::MAX,
            is_branch(path@, t, h, w),
            path@[0] == start,
            path@.last() == cur,
            arrived == t.contains(pos(cur)),
        decreases budget,
    {
        let d: usize = rng.uniform(4);
        match shift(cur, d, 2) {
            Some(next) => {
                match in_tree.at(next.0, next.1) {
                    Some(reached) => {
                        proof {
                            lemma_stepped(path@, next, t, h, w);
                        }
                        step_to(&mut path, next);
                        cur = next;
                        arrived = reached;
                    },
                    None => {},
                }
            },
            None => {},
        }
        budget -= 1;
    }
    while !arrived
        invariant
            in_tree.wf(),
            h == rows(in_tree@),
            w == cols(in_tree@),
            t == marked(in_tree@),
            is_branch(path@, t, h, w),
            path@[0] == start,
            path@.last() == cur,
            arrived == t.contains(pos(cur)),
            is_room(h, w, pos(root)),
            t.contains(pos(root)),
        decreases distance(pos(cur), pos(root)),
    {
        let next: (usize, usize) = if cur.0 > root.0 {
            (cur.0 - 2, cur.1)
        } else if cur.0 < root.0 {
            (cur.0 + 2, cur.1)
        } else if cur.1 > root.1 {
            (cur.0, cur.1 - 2)
        } else {
            (cur.0, cur.1 + 2)
        };
        proof {
            assert(adjacent(pos(cur), pos(next)));
            lemma_stepped(path@, next, t, h, w);
        }
        step_to(&mut path, next);
        cur = next;
        arrived = match in_tree.at(next.0, next.1) {
            Some(reached) => reached,
            None => false,
        };
    }
    path
}

/// The number of random steps that one walk may take: `WALK_FACTOR` for
/// every cell of the grid, as far as a machine integer can count.
pub fn walk_budget(in_tree: &Matrix<bool>) -> (budget: usize)
    requires
        in_tree.wf(),
    ensures
        budget == if in_tree.rows() * in_tree.cols() * WALK_FACTOR <= usize::MAX {
            in_tree.rows() * in_tree.cols() * WALK_FACTOR
        } else {
            usize::MAX as int
        },
{
    proof {
        in_tree.lemma_fits();
    }
    let cells: usize = in_tree.row_count() * in_tree.col_count();
    match cells.checked_mul(WALK_FACTOR) {
        Some(budget) => budget,
        None => usize::MAX,
    }
}

impl Maze {
    /// Adds a walk that ends in the tree to the tree: from the far end back
    /// to the start, the wall between each room and the next is opened.
    fn splice(
        &mut self,
        in_tree: &mut Matrix<bool>,
        path: &Vec<(usize, usize)>,
        Ghost(root): Ghost<(int, int)>,
    )
        requires
            old(self).consistent(),
            old(in_tree).wf(),
            rows(old(in_tree)@) == rows(old(self)@),
            cols(old(in_tree)@) == cols(old(self)@),
            tree_over(old(self)@, marked(old(in_tree)@), root),
            is_branch(path@, marked(old(in_tree)@), rows(old(self)@), cols(old(self)@)),
            marked(old(in_tree)@).contains(pos(path@.last())),
        ensures
            final(self).consistent(),
            final(in_tree).wf(),
            rows(final(self)@) == rows(old(self)@),
            cols(final(self)@) == cols(old(self)@),
            rows(final(in_tree)@) == rows(old(in_tree)@),
            cols(final(in_tree)@) == cols(old(in_tree)@),
            tree_over(final(self)@, marked(final(in_tree)@), root),
            marked(final(in_tree)@) == marked(old(in_tree)@).union(trail(path@, 0)),
    {
        let ghost h = rows(self@);
        let ghost w = cols(self@);
        let ghost t0 = marked(in_tree@);
        let mut k: usize = path.len() - 1;
        proof {
            assert forall|c: (int, int)| trail(path@, k as int).contains(c) implies t0.contains(
                c,
            ) by {
                let l = choose|l: int| k <= l < path@.len() && pos(#[trigger] path@[l]) == c;
            }
            assert(t0 =~= t0.union(trail(path@, k as int)));
        }
        while k > 0
            invariant
                self.consistent(),
                in_tree.wf(),
                rows(self@) == h,
                cols(self@) == w,
                rows(in_tree@) == h,
                cols(in_tree@) == w,
                k < path@.len(),
                is_branch(path@, t0, h, w),
                t0.contains(pos(path@.last())),
                tree_over(self@, marked(in_tree@), root),
                marked(in_tree@) == t0.union(trail(path@, k as int)),
            decreases k,
        {
            let from = path[k];
            let to = path[k - 1];
            let ghost t = marked(in_tree@);
            proof {
                assert(trail(path@, k as int).contains(pos(from))) by {
                    assert(pos(path@[k as int]) == pos(from));
                }
                assert(hop(path@, t0, k - 1));
                assert(adjacent(pos(to), pos(from)));
                if trail(path@, k as int).contains(pos(to)) {
                    let l = choose|l: int|
                        k <= l < path@.len() && pos(#[trigger] path@[l]) == pos(to);
                    assert(path@[k - 1] != path@[l]);
                }
                lemma_trail_back(path@, k as int);
            }
            self.carve(in_tree, from, to, Ghost(root));
            k -= 1;
            proof {
                assert(marked(in_tree@) =~= t0.union(trail(path@, k as int)));
            }
        }
    }

    /// Carves a perfect maze into a grid in which no wall is open yet, by
    /// loop-erased random walks. The tree starts as a room drawn from `rng`;
    /// the rooms are then taken row by row, and from each that is not in the
    /// tree yet a walk sets out and is added to the tree when it reaches it.
    pub fn wilson<R: RandomSource>(&mut self, rng: &mut R)
        requires
            old(self).wf(),
            untouched(old(self)@),
        ensures
            final(self).wf(),
            rows(final(self)@) == rows(old(self)@),
            cols(final(self)@) == cols(old(self)@),
            perfect(final(self)@),
    {
        let ghost h = rows(self@);
        let ghost w = cols(self@);
        proof {
            self.grid.lemma_fits();
        }
        let mut in_tree = Matrix::new(self.height, self.width, false);
        let first = self.pick_room(rng);
        let ghost root = pos(first);
        in_tree.update(first.0, first.1, true);
        proof {
            lemma_tree_seed(self@, root);
            assert(marked(in_tree@) =~= set![root]);
        }
        let mut i: usize = 1;
        while i < self.height
            invariant
                self.consistent(),
                h == self.height,
                w == self.width,
                rows(self@) == h,
                cols(self@) == w,
                in_tree.wf(),
                rows(in_tree@) == h,
                cols(in_tree@) == w,
                is_room(h, w, pos(first)),
                root == pos(first),
                tree_over(self@, marked(in_tree@), root),
                1 <= i <= h,
                i % 2 == 1,
                forall|c: (int, int)| is_room(h, w, c) && c.0 < i ==> marked(in_tree@).contains(c),
            decreases h - i,
        {
            let mut j: usize = 1;
            while j < self.width
                invariant
                    self.consistent(),
                    h == self.height,
                    w == self.width,
                    rows(self@) == h,
                    cols(self@) == w,
                    in_tree.wf(),
                    rows(in_tree@) == h,
                    cols(in_tree@) == w,
                    is_room(h, w, pos(first)),
                    root == pos(first),
                    tree_over(self@, marked(in_tree@), root),
                    1 <= i < h,
                    i % 2 == 1,
                    1 <= j <= w,
                    j % 2 == 1,
                    forall|c: (int, int)|
                        is_room(h, w, c) && (c.0 < i || (c.0 == i && c.1 < j)) ==> marked(
                            in_tree@,
                        ).contains(c),
                decreases w - j,
            {
                match in_tree.at(i, j) {
                    Some(reached) => {
                        if !reached {
                            let path = erased_walk(&in_tree, (i, j), first, rng);
                            self.splice(&mut in_tree, &path, Ghost(root));
                            proof {
                                assert(trail(path@, 0).contains((i as int, j as int))) by {
                                    assert(pos(path@[0]) == (i as int, j as int));
                                }
                            }
                        }
                    },
                    None => {},
                }
                assert(marked(in_tree@).contains((i as int, j as int)));
                j += 2;
            }
            i += 2;
        }
        proof {
            assert(marked(in_tree@) =~= rooms(h, w));
            lemma_tree_spans(self@, root);
        }
    }
}

} // verus!
