//! The randomized depth-first backtracker: a walk that opens a wall to an
//! unvisited neighbour whenever there is one and steps back when there is none.

use crate::carve::{directions, lemma_marked_bounded, marked, pos, shift};
use crate::lattice::{
    adjacent, cols, is_room, lemma_spread_covers, lemma_tree_seed, lemma_tree_spans, perfect,
    rooms, rows, toward, tree_over, untouched,
};
use crate::matrix::Matrix;
use crate::rand::RandomSource;
use crate::Maze;
use vstd::prelude::*;

verus! {

/// Every room next to `c` is in `t`.
pub open spec fn settled(h: int, w: int, t: Set<(int, int)>, c: (int, int)) -> bool {
    forall|d: int|
        0 <= d < 4 && is_room(h, w, #[trigger] toward(c, d, 2)) ==> t.contains(toward(c, d, 2))
}

/// The cell `c` is on the stack.
pub open spec fn waiting(stack: Seq<(usize, usize)>, c: (int, int)) -> bool {
    exists|k: int| 0 <= k < stack.len() && pos(#[trigger] stack[k]) == c
}

/// The first room next to the room `at`, in the order of `dirs`, that is not
/// marked yet; none if every room next to `at` is marked.
pub fn first_fresh(marks: &Matrix<bool>, at: (usize, usize), dirs: &Vec<usize>) -> (found: Option<
    (usize, usize),
>)
    requires
        marks.wf(),
        is_room(rows(marks@), cols(marks@), pos(at)),
        dirs@.len() == 4,
        forall|k: int| 0 <= k < 4 ==> #[trigger] dirs@[k] < 4,
        forall|d: usize| d < 4 ==> dirs@.contains(d),
    ensures
        match found {
            Some(n) => {
                &&& is_room(rows(marks@), cols(marks@), pos(n))
                &&& adjacent(pos(at), pos(n))
                &&& !marked(marks@).contains(pos(n))
                &&& exists|k: int|
                    0 <= k < 4 && pos(n) == toward(pos(at), #[trigger] dirs@[k] as int, 2) && forall|
                        e: int,
                    |
                        0 <= e < k && is_room(
                            rows(marks@),
                            cols(marks@),
                            toward(pos(at), #[trigger] dirs@[e] as int, 2),
                        ) ==> marked(marks@).contains(toward(pos(at), dirs@[e] as int, 2))
            },
            None => settled(rows(marks@), cols(marks@), marked(marks@), pos(at)),
        },
{
    let mut k: usize = 0;
    while k < 4
        invariant
            k <= 4,
            marks.wf(),
            is_room(rows(marks@), cols(marks@), pos(at)),
            dirs@.len() == 4,
            forall|k: int| 0 <= k < 4 ==> #[trigger] dirs@[k] < 4,
            forall|e: int|
                0 <= e < k && is_room(
                    rows(marks@),
                    cols(marks@),
                    toward(pos(at), #[trigger] dirs@[e] as int, 2),
                ) ==> marked(marks@).contains(toward(pos(at), dirs@[e] as int, 2)),
        decreases 4 - k,
    {
        let d: usize = dirs[k];
        proof {
            marks.lemma_fits();
        }
        match shift(at, d, 2) {
            Some(n) => {
                match marks.at(n.0, n.1) {
                    Some(seen) => {
                        if !seen {
                            return Some(n);
                        }
                    },
                    None => {},
                }
            },
            None => {},
        }
        k += 1;
    }
    proof {
        assert forall|d: int|
            0 <= d < 4 && is_room(
                rows(marks@),
                cols(marks@),
                #[trigger] toward(pos(at), d, 2),
            ) implies marked(marks@).contains(toward(pos(at), d, 2)) by {
            assert(dirs@.contains(d as usize));
            let e = choose|e: int| 0 <= e < dirs@.len() && dirs@[e] == d as usize;
            assert(dirs@[e] as int == d);
        }
    }
    None
}

impl Maze {
    /// Carves a perfect maze into a grid in which no wall is open yet, by a
    /// depth-first walk from a room drawn from `rng`. At every step the walk
    /// tries the four directions in an order drawn from `rng` and moves on to
    /// the first neighbouring room that it has not visited, opening the wall
    /// in between; where that fails it steps back.
    pub fn rand_dfs<R: RandomSource>(&mut self, rng: &mut R)
        requires
            old(self).wf(),
            untouched(old(self)@),
        ensures
            final(self).wf(),
            rows(final(self)@) == rows(old(self)@),
            cols(final(self)@) == cols(old(self)@),
            perfect(final(self)@),
    {
        let ghost h = rows(self@);
        let ghost w = cols(self@);
        proof {
            self.grid.lemma_fits();
        }
        let mut connected = Matrix::new(self.height, self.width, false);
        let start = self.pick_room(rng);
        let ghost root = pos(start);
        connected.update(start.0, start.1, true);
        let mut stack: Vec<(usize, usize)> = Vec::new();
        stack.push(start);
        proof {
            lemma_tree_seed(self@, root);
            assert(marked(connected@) =~= set![root]);
            assert(waiting(stack@, root)) by {
                assert(pos(stack@[0]) == root);
            }
            lemma_marked_bounded(connected@);
        }
        while stack.len() > 0
            invariant
                self.consistent(),
                rows(self@) == h,
                cols(self@) == w,
                connected.wf(),
                rows(connected@) == h,
                cols(connected@) == w,
                tree_over(self@, marked(connected@), root),
                marked(connected@).finite(),
                rooms(h, w).finite(),
                marked(connected@).len() <= rooms(h, w).len(),
                forall|k: int|
                    0 <= k < stack@.len() ==> marked(connected@).contains(pos(#[trigger] stack@[k])),
                forall|c: (int, int)|
                    marked(connected@).contains(c) ==> #[trigger] waiting(stack@, c) || settled(
                        h,
                        w,
                        marked(connected@),
                        c,
                    ),
            decreases 2 * (rooms(h, w).len() - marked(connected@).len()) + stack@.len(),
        {
            let cur = stack[stack.len() - 1];
            let dirs = directions(rng);
            let ghost t = marked(connected@);
            let ghost before = stack@;
            assert(t.contains(pos(cur)));
            match first_fresh(&connected, cur, &dirs) {
                Some(next) => {
                    self.carve(&mut connected, cur, next, Ghost(root));
                    stack.push(next);
                    proof {
                        let t2 = marked(connected@);
                        lemma_marked_bounded(connected@);
                        assert forall|c: (int, int)| t2.contains(c) implies #[trigger] waiting(
                            stack@,
                            c,
                        ) || settled(h, w, t2, c) by {
                            if c == pos(next) {
                                assert(pos(stack@[before.len() as int]) == c);
                            } else {
                                assert(t.contains(c));
                                if waiting(before, c) {
                                    let k = choose|k: int|
                                        0 <= k < before.len() && pos(#[trigger] before[k]) == c;
                                    assert(pos(stack@[k]) == c);
                                }
                            }
                        }
                    }
                },
                None => {
                    stack.pop();
                    proof {
                        assert forall|c: (int, int)| t.contains(c) implies #[trigger] waiting(
                            stack@,
                            c,
                        ) || settled(h, w, t, c) by {
                            if waiting(before, c) && c != pos(cur) {
                                let k = choose|k: int|
                                    0 <= k < before.len() && pos(#[trigger] before[k]) == c;
                                assert(pos(stack@[k]) == c);
                            }
                        }
                    }
                },
            }
        }
        proof {
            let t = marked(connected@);
            assert forall|a: (int, int), d: int|
                t.contains(a) && 0 <= d < 4 && is_room(h, w, #[trigger] toward(a, d, 2)) implies t.contains(
                toward(a, d, 2),
            ) by {
                assert(waiting(stack@, a) || settled(h, w, t, a));
            }
            lemma_spread_covers(h, w, t, root);
            lemma_tree_spans(self@, root);
        }
    }
}

} // verus!
