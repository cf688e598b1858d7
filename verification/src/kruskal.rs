//! Randomized Kruskal: every wall between two rooms is looked at once, in a
//! shuffled order, and opened if the rooms on its two sides are not connected
//! yet. One union-find structure keeps track of what is connected.

use crate::carve::{midpoint, pos, shift};
use crate::dsu::Dsu;
use crate::graph::{lemma_reaches_self, lemma_reaches_step, lemma_reaches_trans};
use crate::lattice::{
    adjacent, between, cols, ends, is_open, is_room, is_slot, lemma_between_rooms,
    lemma_linked_more, lemma_opened_slot, lemma_rooms_count, lemma_spread_covers,
    lemma_untouched_tidy, linked, open_walls, opened, passage, perfect, rooms, rows, tidy, toward,
    untouched, OPEN, RIGHT, UP,
};
use crate::matrix::{lemma_index_in_range, lemma_index_injective};
use crate::partition::{relabel, singletons};
use crate::rand::{shuffle_with, RandomSource};
use crate::Maze;
use vstd::prelude::*;
use vstd::set_lib::lemma_map_size;

verus! {

broadcast use vstd::seq_lib::group_to_multiset_ensures;

/// A candidate connection: a room and the direction of one of its neighbours.
pub struct Edge {
    pub cell: (usize, usize),
    pub dir: usize,
}

/// The element that stands for the cell `c` in the union-find structure of a
/// grid of `w` columns.
pub open spec fn cell_index(w: int, c: (int, int)) -> int {
    c.0 * w + c.1
}

/// The function that gives every cell the representative of its set.
pub open spec fn class_of(reps: Seq<int>, w: int) -> spec_fn((int, int)) -> int {
    |c: (int, int)| reps[cell_index(w, c)]
}

/// The representatives of the sets that hold a room.
pub open spec fn classes(reps: Seq<int>, h: int, w: int) -> Set<int> {
    rooms(h, w).map(class_of(reps, w))
}

/// The partition `reps` describes what the open walls of `g` connect: rooms
/// of one set can be walked between, the two rooms at an open wall are in one
/// set, and every open wall has made one set out of two.
pub open spec fn forest_over(g: Seq<Seq<u8>>, reps: Seq<int>) -> bool {
    let h = rows(g);
    let w = cols(g);
    &&& tidy(g)
    &&& reps.len() == h * w
    &&& forall|a: (int, int), b: (int, int)|
        is_room(h, w, a) && is_room(h, w, b) && reps[cell_index(w, a)] == reps[cell_index(w, b)]
            ==> #[trigger] linked(g, a, b)
    &&& forall|s: (int, int)|
        is_slot(h, w, s) && #[trigger] is_open(g, s) ==> reps[cell_index(w, ends(s).0)]
            == reps[cell_index(w, ends(s).1)]
    &&& open_walls(g).finite()
    &&& classes(reps, h, w).finite()
    &&& open_walls(g).len() + classes(reps, h, w).len() == rooms(h, w).len()
}

/// The element of a room is an element of the structure, and different rooms
/// have different elements.
pub proof fn lemma_cell_index(h: int, w: int, a: (int, int), b: (int, int))
    requires
        is_room(h, w, a),
        is_room(h, w, b),
    ensures
        0 <= cell_index(w, a) < h * w,
        cell_index(w, a) == cell_index(w, b) ==> a == b,
{
    lemma_index_in_range(h, w, a.0, a.1);
    if cell_index(w, a) == cell_index(w, b) {
        lemma_index_injective(w, a.0, a.1, b.0, b.1);
    }
}

/// With every cell in a set of its own and no wall open, the partition
/// describes the grid.
pub proof fn lemma_forest_seed(g: Seq<Seq<u8>>)
    requires
        untouched(g),
    ensures
        forest_over(g, singletons((rows(g) * cols(g)) as nat)),
{
    let h = rows(g);
    let w = cols(g);
    assert(h * w >= 0) by (nonlinear_arith)
        requires
            h >= 0,
            w >= 0,
    ;
    let reps = singletons((h * w) as nat);
    lemma_untouched_tidy(g);
    assert forall|a: (int, int), b: (int, int)|
        is_room(h, w, a) && is_room(h, w, b) && reps[cell_index(w, a)] == reps[cell_index(
            w,
            b,
        )] implies #[trigger] linked(g, a, b) by {
        lemma_cell_index(h, w, a, b);
        lemma_cell_index(h, w, b, a);
        lemma_reaches_self(passage(g), a);
    }
    assert forall|s: (int, int)| is_slot(h, w, s) implies !is_open(g, s) by {
        assert(g[s.0][s.1] != OPEN);
    }
    assert(open_walls(g) =~= Set::empty());
    lemma_rooms_count(h, w);
    let f = class_of(reps, w);
    assert forall|a: (int, int), b: (int, int)|
        rooms(h, w).contains(a) && rooms(h, w).contains(b) && #[trigger] f(a) == #[trigger] f(
            b,
        ) implies a == b by {
        lemma_cell_index(h, w, a, b);
        lemma_cell_index(h, w, b, a);
    }
    assert(vstd::relations::injective_on(f, rooms(h, w)));
    lemma_map_size(rooms(h, w), classes(reps, h, w), f);
}

/// Opening the wall between two neighbouring rooms of different sets, and
/// handing the set `from` of one of them over to the set `to` of the other,
/// keeps the partition a description of the grid.
pub proof fn lemma_forest_joins(
    g: Seq<Seq<u8>>,
    reps: Seq<int>,
    a: (int, int),
    b: (int, int),
    from: int,
    to: int,
)
    requires
        forest_over(g, reps),
        is_room(rows(g), cols(g), a),
        is_room(rows(g), cols(g), b),
        adjacent(a, b),
        from != to,
        (reps[cell_index(cols(g), a)] == from && reps[cell_index(cols(g), b)] == to) || (
        reps[cell_index(cols(g), b)] == from && reps[cell_index(cols(g), a)] == to),
    ensures
        forest_over(opened(g, between(a, b)), relabel(reps, from, to)),
        !is_open(g, between(a, b)),
{
    let h = rows(g);
    let w = cols(g);
    let mid = between(a, b);
    let g2 = opened(g, mid);
    let reps2 = relabel(reps, from, to);
    lemma_between_rooms(h, w, a, b);
    lemma_cell_index(h, w, a, b);
    lemma_cell_index(h, w, b, a);
    assert(!is_open(g, mid));
    lemma_opened_slot(g, mid);
    assert(passage(g2)(a, b));
    assert(passage(g2)(b, a)) by {
        lemma_between_rooms(h, w, b, a);
    }
    assert forall|x: (int, int), y: (int, int)|
        is_room(h, w, x) && is_room(h, w, y) && reps2[cell_index(w, x)] == reps2[cell_index(
            w,
            y,
        )] implies #[trigger] linked(g2, x, y) by {
        lemma_cell_index(h, w, x, y);
        lemma_cell_index(h, w, y, x);
        let rx = reps[cell_index(w, x)];
        let ry = reps[cell_index(w, y)];
        if rx == ry {
            assert(linked(g, x, y));
            lemma_linked_more(g, g2, x, y);
        } else {
            // one of the two rooms was in the set of `a`, the other in that of `b`
            let (p, q) = if rx == reps[cell_index(w, a)] {
                (a, b)
            } else {
                (b, a)
            };
            assert(linked(g, x, p));
            assert(linked(g, q, y));
            lemma_linked_more(g, g2, x, p);
            lemma_linked_more(g, g2, q, y);
            lemma_reaches_step(passage(g2), x, p, q);
            lemma_reaches_trans(passage(g2), x, q, y);
        }
    }
    assert forall|s: (int, int)| is_slot(h, w, s) && #[trigger] is_open(g2, s) implies reps2[cell_index(
        w,
        ends(s).0,
    )] == reps2[cell_index(w, ends(s).1)] by {
        assert(is_room(h, w, ends(s).0) && is_room(h, w, ends(s).1));
        lemma_cell_index(h, w, ends(s).0, ends(s).1);
        lemma_cell_index(h, w, ends(s).1, ends(s).0);
        if s != mid {
            assert(is_open(g, s));
        }
    }
    let f = class_of(reps, w);
    let f2 = class_of(reps2, w);
    let cl = classes(reps, h, w);
    let cl2 = classes(reps2, h, w);
    assert(rooms(h, w).contains(a) && rooms(h, w).contains(b));
    assert(cl.contains(f(a)) && cl.contains(f(b)));
    assert(cl.contains(from) && cl.contains(to));
    assert forall|r: int| cl2.contains(r) <==> cl.remove(from).contains(r) by {
        if cl2.contains(r) {
            let c = choose|c: (int, int)| rooms(h, w).contains(c) && f2(c) == r;
            lemma_cell_index(h, w, c, c);
            assert(cl.contains(f(c)));
        }
        if cl.remove(from).contains(r) {
            let c = choose|c: (int, int)| rooms(h, w).contains(c) && f(c) == r;
            lemma_cell_index(h, w, c, c);
            assert(f2(c) == r);
            assert(rooms(h, w).contains(c));
        }
    }
    assert(cl2 =~= cl.remove(from));
}

/// The edge towards the neighbour of `c` in direction `d` has been looked at:
/// if that neighbour is a room, it is in the set of `c`.
pub open spec fn handled(reps: Seq<int>, h: int, w: int, c: (int, int), d: int) -> bool {
    is_room(h, w, toward(c, d, 2)) ==> reps[cell_index(w, c)] == reps[cell_index(
        w,
        toward(c, d, 2),
    )]
}

/// Once the edges upwards and to the right of every room have been looked
/// at, the rooms are all in one set, and the grid is a perfect maze.
pub proof fn lemma_forest_spans(g: Seq<Seq<u8>>, reps: Seq<int>)
    requires
        forest_over(g, reps),
        forall|c: (int, int), d: int|
            is_room(rows(g), cols(g), c) && (d == UP || d == RIGHT) ==> #[trigger] handled(
                reps,
                rows(g),
                cols(g),
                c,
                d,
            ),
    ensures
        perfect(g),
{
    let h = rows(g);
    let w = cols(g);
    let root = (1int, 1int);
    let f = class_of(reps, w);
    let s = Set::new(|c: (int, int)| is_room(h, w, c) && f(c) == f(root));
    assert forall|a: (int, int), d: int|
        s.contains(a) && 0 <= d < 4 && is_room(h, w, #[trigger] toward(a, d, 2)) implies s.contains(
        toward(a, d, 2),
    ) by {
        let b = toward(a, d, 2);
        if d == 0 {
            assert(handled(reps, h, w, b, UP as int));
            assert(toward(b, UP as int, 2) == a);
        } else if d == 1 {
            assert(handled(reps, h, w, a, UP as int));
        } else if d == 2 {
            assert(handled(reps, h, w, b, RIGHT as int));
            assert(toward(b, RIGHT as int, 2) == a);
        } else {
            assert(handled(reps, h, w, a, RIGHT as int));
        }
    }
    assert(s.subset_of(rooms(h, w)));
    lemma_spread_covers(h, w, s, root);
    assert forall|a: (int, int), b: (int, int)|
        is_room(h, w, a) && is_room(h, w, b) implies #[trigger] linked(g, a, b) by {
        assert(s.contains(a) && s.contains(b));
    }
    let cl = classes(reps, h, w);
    assert(rooms(h, w).contains(root));
    assert(cl.contains(f(root)));
    assert forall|r: int| cl.contains(r) implies r == f(root) by {
        let c = choose|c: (int, int)| rooms(h, w).contains(c) && f(c) == r;
        assert(s.contains(c));
    }
    assert(cl =~= set![f(root)]);
}

/// Every edge of `all` leaves a room upwards or to the right, and both such
/// edges of every room are in `all`.
pub open spec fn all_edges(all: Seq<Edge>, h: int, w: int) -> bool {
    &&& forall|k: int|
        0 <= k < all.len() ==> is_room(h, w, pos((#[trigger] all[k]).cell)) && (all[k].dir == UP
            || all[k].dir == RIGHT)
    &&& forall|c: (usize, usize)|
        is_room(h, w, #[trigger] pos(c)) ==> all.contains(Edge { cell: c, dir: UP })
            && all.contains(Edge { cell: c, dir: RIGHT })
}

impl Maze {
    /// The edges upwards and to the right of every room, row by row.
    fn list_edges(&self) -> (edges: Vec<Edge>)
        requires
            self.wf(),
        ensures
            all_edges(edges@, rows(self@), cols(self@)),
    {
        let ghost h = rows(self@);
        let ghost w = cols(self@);
        let mut edges: Vec<Edge> = Vec::new();
        let mut i: usize = 1;
        while i < self.height
            invariant
                self.wf(),
                h == self.height,
                w == self.width,
                1 <= i <= h,
                i % 2 == 1,
                forall|k: int|
                    0 <= k < edges@.len() ==> is_room(h, w, pos((#[trigger] edges@[k]).cell)) && (
                    edges@[k].dir == UP || edges@[k].dir == RIGHT),
                forall|c: (usize, usize)|
                    is_room(h, w, #[trigger] pos(c)) && c.0 < i ==> edges@.contains(
                        Edge { cell: c, dir: UP },
                    ) && edges@.contains(Edge { cell: c, dir: RIGHT }),
            decreases h - i,
        {
            let mut j: usize = 1;
            while j < self.width
                invariant
                    self.wf(),
                    h == self.height,
                    w == self.width,
                    1 <= i < h,
                    i % 2 == 1,
                    1 <= j <= w,
                    j % 2 == 1,
                    forall|k: int|
                        0 <= k < edges@.len() ==> is_room(h, w, pos((#[trigger] edges@[k]).cell))
                            && (edges@[k].dir == UP || edges@[k].dir == RIGHT),
                    forall|c: (usize, usize)|
                        is_room(h, w, #[trigger] pos(c)) && (c.0 < i || (c.0 == i && c.1 < j))
                            ==> edges@.contains(Edge { cell: c, dir: UP }) && edges@.contains(
                            Edge { cell: c, dir: RIGHT },
                        ),
                decreases w - j,
            {
                let ghost before = edges@;
                edges.push(Edge { cell: (i, j), dir: UP });
                edges.push(Edge { cell: (i, j), dir: RIGHT });
                proof {
                    let n = before.len() as int;
                    assert(edges@[n] == Edge { cell: (i, j), dir: UP });
                    assert(edges@[n + 1] == Edge { cell: (i, j), dir: RIGHT });
                    assert forall|c: (usize, usize)|
                        is_room(h, w, #[trigger] pos(c)) && (c.0 < i || (c.0 == i && c.1 < j + 2))
                            implies edges@.contains(Edge { cell: c, dir: UP }) && edges@.contains(
                        Edge { cell: c, dir: RIGHT },
                    ) by {
                        if c.0 < i || (c.0 == i && c.1 < j) {
                            let up = Edge { cell: c, dir: UP };
                            let right = Edge { cell: c, dir: RIGHT };
                            let ku = choose|k: int| 0 <= k < before.len() && before[k] == up;
                            let kr = choose|k: int| 0 <= k < before.len() && before[k] == right;
                            assert(edges@[ku] == up);
                            assert(edges@[kr] == right);
                        } else {
                            assert(c == (i, j));
                        }
                    }
                }
                j += 2;
            }
            i += 2;
        }
        edges
    }

    /// Carves a perfect maze into a grid in which no wall is open yet: the
    /// edges between neighbouring rooms are shuffled with `rng` and taken from
    /// the end of the list one by one; the wall of an edge is opened if its
    /// two rooms are not in the same set of the one union-find structure of
    /// the run, and the two sets are then united.
    pub fn rand_kruskal<R: RandomSource>(&mut self, rng: &mut R)
        requires
            old(self).wf(),
            untouched(old(self)@),
        ensures
            final(self).wf(),
            rows(final(self)@) == rows(old(self)@),
            cols(final(self)@) == cols(old(self)@),
            perfect(final(self)@),
    {
        let ghost h = rows(self@);
        let ghost w = cols(self@);
        let mut edges = self.list_edges();
        let ghost listed = edges@;
        shuffle_with(&mut edges, rng);
        let ghost all = edges@;
        proof {
            assert forall|k: int| 0 <= k < all.len() implies is_room(
                h,
                w,
                pos((#[trigger] all[k]).cell),
            ) && (all[k].dir == UP || all[k].dir == RIGHT) by {
                assert(all.contains(all[k]));
                assert(all.to_multiset().count(all[k]) > 0);
                assert(listed.contains(all[k]));
            }
            assert forall|c: (usize, usize)| is_room(h, w, #[trigger] pos(c)) implies all.contains(
                Edge { cell: c, dir: UP },
            ) && all.contains(Edge { cell: c, dir: RIGHT }) by {
                let up = Edge { cell: c, dir: UP };
                let right = Edge { cell: c, dir: RIGHT };
                assert(listed.contains(up) && listed.contains(right));
                assert(listed.to_multiset().count(up) > 0);
                assert(listed.to_multiset().count(right) > 0);
            }
            self.grid.lemma_fits();
            assert(self.height * self.width == h * w);
            lemma_forest_seed(self@);
        }
        let mut dsu = Dsu::new(self.height * self.width);
        while edges.len() > 0
            invariant
                self.consistent(),
                h == self.height,
                w == self.width,
                rows(self@) == h,
                cols(self@) == w,
                h * w <= usize::MAX,
                dsu.wf(),
                forest_over(self@, dsu@),
                all_edges(all, h, w),
                edges@.len() <= all.len(),
                forall|k: int| 0 <= k < edges@.len() ==> edges@[k] == all[k],
                forall|k: int|
                    edges@.len() <= k < all.len() ==> handled(
                        dsu@,
                        h,
                        w,
                        pos((#[trigger] all[k]).cell),
                        all[k].dir as int,
                    ),
            decreases edges@.len(),
        {
            let ghost reps = dsu@;
            let ghost g = self@;
            let edge = edges.pop().unwrap();
            let ghost a = pos(edge.cell);
            let ghost b = toward(a, edge.dir as int, 2);
            assert(edge == all[edges@.len() as int]);
            proof {
                self.grid.lemma_fits();
                dsu.lemma_representatives();
            }
            match shift(edge.cell, edge.dir, 2) {
                Some(next) => {
                    if self.grid.in_bounds(next.0, next.1) {
                        proof {
                            lemma_cell_index(h, w, a, b);
                            lemma_cell_index(h, w, b, a);
                        }
                        let here: usize = edge.cell.0 * self.width + edge.cell.1;
                        let there: usize = next.0 * self.width + next.1;
                        if !dsu.same_set(here, there) {
                            dsu.merge(here, there);
                            let wall = midpoint(edge.cell, next);
                            self.grid.update(wall.0, wall.1, OPEN);
                            proof {
                                if dsu@ == relabel(reps, reps[here as int], reps[there as int]) {
                                    lemma_forest_joins(
                                        g,
                                        reps,
                                        a,
                                        b,
                                        reps[here as int],
                                        reps[there as int],
                                    );
                                } else {
                                    lemma_forest_joins(
                                        g,
                                        reps,
                                        a,
                                        b,
                                        reps[there as int],
                                        reps[here as int],
                                    );
                                }
                            }
                        }
                    }
                },
                None => {},
            }
            proof {
                assert forall|k: int| edges@.len() <= k < all.len() implies handled(
                    dsu@,
                    h,
                    w,
                    pos((#[trigger] all[k]).cell),
                    all[k].dir as int,
                ) by {
                    let c = pos(all[k].cell);
                    let n = toward(c, all[k].dir as int, 2);
                    if is_room(h, w, n) {
                        lemma_cell_index(h, w, c, n);
                        lemma_cell_index(h, w, n, c);
                        if k > edges@.len() {
                            assert(handled(reps, h, w, c, all[k].dir as int));
                        }
                    }
                }
            }
        }
        proof {
            assert forall|c: (int, int), d: int|
                is_room(h, w, c) && (d == UP || d == RIGHT) implies #[trigger] handled(
                dsu@,
                h,
                w,
                c,
                d,
            ) by {
                let cu = (c.0 as usize, c.1 as usize);
                assert(pos(cu) == c);
                let edge = Edge { cell: cu, dir: d as usize };
                assert(all.contains(edge));
                let k = choose|k: int| 0 <= k < all.len() && all[k] == edge;
                assert(handled(dsu@, h, w, pos(all[k].cell), all[k].dir as int));
            }
            lemma_forest_spans(self@, dsu@);
        }
    }
}

} // verus!
