//! Steps on the lattice that the generation tactics share: moving from a cell
//! in a direction, drawing a room or an order of directions, and opening the
//! wall towards a room that joins the tree.

use crate::lattice::{
    adjacent, between, cols, is_room, lemma_between_rooms, lemma_rooms_count, lemma_tree_grows,
    opened, rooms, rows, toward, tree_over, DOWN, LEFT, OPEN, RIGHT, UP,
};
use crate::matrix::Matrix;
use crate::rand::{shuffle_with, RandomSource};
use crate::Maze;
use vstd::prelude::*;
use vstd::set_lib::lemma_len_subset;

verus! {

broadcast use vstd::seq_lib::group_to_multiset_ensures;

/// How often a room is drawn again before the first room is taken instead.
pub const MAX_DRAWS: usize = 64;

/// A cell given by machine integers, as a cell of the lattice.
pub open spec fn pos(p: (usize, usize)) -> (int, int) {
    (p.0 as int, p.1 as int)
}

/// The rooms that a grid of marks has marked.
pub open spec fn marked(m: Seq<Seq<bool>>) -> Set<(int, int)> {
    Set::new(|c: (int, int)| is_room(rows(m), cols(m), c) && m[c.0][c.1])
}

/// The marked rooms are finitely many, no more than there are rooms.
pub proof fn lemma_marked_bounded(m: Seq<Seq<bool>>)
    requires
        rows(m) >= 1,
        cols(m) >= 1,
        rows(m) % 2 == 1,
        cols(m) % 2 == 1,
    ensures
        marked(m).finite(),
        marked(m).len() <= rooms(rows(m), cols(m)).len(),
        rooms(rows(m), cols(m)).finite(),
{
    lemma_rooms_count(rows(m), cols(m));
    assert(marked(m).subset_of(rooms(rows(m), cols(m))));
    lemma_len_subset(marked(m), rooms(rows(m), cols(m)));
}

/// The cell `dist` steps from `at` in direction `d`, unless a coordinate
/// would leave the machine integers.
pub fn shift(at: (usize, usize), d: usize, dist: usize) -> (r: Option<(usize, usize)>)
    requires
        d < 4,
    ensures
        match r {
            Some(n) => pos(n) == toward(pos(at), d as int, dist as int),
            None => {
                let t = toward(pos(at), d as int, dist as int);
                t.0 < 0 || t.1 < 0 || t.0 > usize::MAX || t.1 > usize::MAX
            },
        },
{
    if d == DOWN {
        match at.0.checked_add(dist) {
            Some(i) => Some((i, at.1)),
            None => None,
        }
    } else if d == UP {
        match at.0.checked_sub(dist) {
            Some(i) => Some((i, at.1)),
            None => None,
        }
    } else if d == LEFT {
        match at.1.checked_sub(dist) {
            Some(j) => Some((at.0, j)),
            None => None,
        }
    } else {
        match at.1.checked_add(dist) {
            Some(j) => Some((at.0, j)),
            None => None,
        }
    }
}

/// The cell between two cells that lie two steps apart along one axis.
pub fn midpoint(a: (usize, usize), b: (usize, usize)) -> (m: (usize, usize))
    requires
        adjacent(pos(a), pos(b)),
    ensures
        pos(m) == between(pos(a), pos(b)),
{
    let i: usize = if a.0 < b.0 {
        a.0 + 1
    } else if a.0 > b.0 {
        a.0 - 1
    } else {
        a.0
    };
    let j: usize = if a.1 < b.1 {
        a.1 + 1
    } else if a.1 > b.1 {
        a.1 - 1
    } else {
        a.1
    };
    (i, j)
}

/// The four directions in an order drawn from `rng`.
pub fn directions<R: RandomSource>(rng: &mut R) -> (dirs: Vec<usize>)
    ensures
        dirs@.len() == 4,
        forall|k: int| 0 <= k < 4 ==> #[trigger] dirs@[k] < 4,
        forall|d: usize| d < 4 ==> dirs@.contains(d),
{
    let mut dirs: Vec<usize> = Vec::with_capacity(4);
    dirs.push(DOWN);
    dirs.push(UP);
    dirs.push(LEFT);
    dirs.push(RIGHT);
    let ghost sorted = dirs@;
    shuffle_with(&mut dirs, rng);
    proof {
        assert forall|k: int| 0 <= k < 4 implies #[trigger] dirs@[k] < 4 by {
            assert(dirs@.contains(dirs@[k]));
            assert(dirs@.to_multiset().count(dirs@[k]) > 0);
            assert(sorted.contains(dirs@[k]));
        }
        assert forall|d: usize| d < 4 implies dirs@.contains(d) by {
            assert(sorted[d as int] == d);
            assert(sorted.contains(d));
            assert(sorted.to_multiset().count(d) > 0);
        }
    }
    dirs
}

impl Maze {
    /// A room drawn from `rng`. Each coordinate is drawn until it is odd, at
    /// most `MAX_DRAWS` times over; a coordinate that is still even then is
    /// replaced by 1.
    pub(crate) fn pick_room<R: RandomSource>(&self, rng: &mut R) -> (room: (usize, usize))
        requires
            self.wf(),
        ensures
            is_room(rows(self@), cols(self@), pos(room)),
    {
        let mut i: usize = rng.uniform(self.height);
        let mut j: usize = rng.uniform(self.width);
        let mut draws: usize = 0;
        while (i % 2 != 1 || j % 2 != 1) && draws < MAX_DRAWS
            invariant
                self.wf(),
                i < self.height,
                j < self.width,
                draws <= MAX_DRAWS,
            decreases MAX_DRAWS - draws,
        {
            if i % 2 != 1 {
                i = rng.uniform(self.height);
            }
            if j % 2 != 1 {
                j = rng.uniform(self.width);
            }
            draws += 1;
        }
        if i % 2 != 1 {
            i = 1;
        }
        if j % 2 != 1 {
            j = 1;
        }
        (i, j)
    }

    /// Opens the wall between the room `from` of the tree and the room `to`
    /// next to it, and marks `to` as a room of the tree.
    pub(crate) fn carve(
        &mut self,
        marks: &mut Matrix<bool>,
        from: (usize, usize),
        to: (usize, usize),
        Ghost(root): Ghost<(int, int)>,
    )
        requires
            old(self).consistent(),
            old(marks).wf(),
            rows(old(marks)@) == rows(old(self)@),
            cols(old(marks)@) == cols(old(self)@),
            tree_over(old(self)@, marked(old(marks)@), root),
            marked(old(marks)@).contains(pos(from)),
            is_room(rows(old(self)@), cols(old(self)@), pos(to)),
            !marked(old(marks)@).contains(pos(to)),
            adjacent(pos(from), pos(to)),
        ensures
            final(self).consistent(),
            final(marks).wf(),
            rows(final(self)@) == rows(old(self)@),
            cols(final(self)@) == cols(old(self)@),
            rows(final(marks)@) == rows(old(marks)@),
            cols(final(marks)@) == cols(old(marks)@),
            final(self)@ == opened(old(self)@, between(pos(from), pos(to))),
            marked(final(marks)@) == marked(old(marks)@).insert(pos(to)),
            marked(final(marks)@).finite(),
            marked(final(marks)@).len() == marked(old(marks)@).len() + 1,
            tree_over(final(self)@, marked(final(marks)@), root),
    {
        let ghost g = self@;
        let ghost m = marks@;
        let ghost t = marked(m);
        proof {
            lemma_marked_bounded(m);
            lemma_between_rooms(rows(g), cols(g), pos(from), pos(to));
            lemma_tree_grows(g, t, root, pos(from), pos(to));
        }
        let wall = midpoint(from, to);
        self.grid.update(wall.0, wall.1, OPEN);
        marks.update(to.0, to.1, true);
        proof {
            let m2 = marks@;
            assert forall|c: (int, int)| marked(m2).contains(c) <==> t.insert(pos(to)).contains(
                c,
            ) by {
                if is_room(rows(m), cols(m), c) {
                    assert(m2[c.0][c.1] == if c == pos(to) {
                        true
                    } else {
                        m[c.0][c.1]
                    });
                }
            }
            assert(marked(m2) =~= t.insert(pos(to)));
        }
    }
}

} // verus!
