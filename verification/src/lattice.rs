//! The doubled lattice as a mathematical object: which cells are rooms, which
//! are walls that may be opened, when two rooms are joined, and what it means
//! for a grid to be a perfect maze. Specification and proof only.

use crate::graph::{
    lemma_reaches_back, lemma_reaches_leaves, lemma_reaches_more, lemma_reaches_self,
    lemma_reaches_step, lemma_reaches_trans, reaches, symmetric,
};
use vstd::prelude::*;
use vstd::set_lib::*;

verus! {

/// The state of a cell that cannot be walked.
pub const WALL: u8 = 1;

/// The state of a cell that can be walked.
pub const OPEN: u8 = 0;

/// The direction in which rows grow.
pub const DOWN: usize = 0;

/// The direction in which rows shrink.
pub const UP: usize = 1;

/// The direction in which columns shrink.
pub const LEFT: usize = 2;

/// The direction in which columns grow.
pub const RIGHT: usize = 3;

/// Number of rows of a grid.
pub open spec fn rows<T>(g: Seq<Seq<T>>) -> int {
    g.len() as int
}

/// Number of columns of a grid, read off its first row.
pub open spec fn cols<T>(g: Seq<Seq<T>>) -> int {
    if g.len() > 0 {
        g[0].len() as int
    } else {
        0
    }
}

/// Every row of the grid has the same length.
pub open spec fn rect<T>(g: Seq<Seq<T>>) -> bool {
    forall|i: int| 0 <= i < g.len() ==> (#[trigger] g[i]).len() == cols(g)
}

/// The cell lies on the grid.
pub open spec fn on_grid(h: int, w: int, c: (int, int)) -> bool {
    0 <= c.0 < h && 0 <= c.1 < w
}

/// A room: a cell of the grid whose row and column are both odd.
pub open spec fn is_room(h: int, w: int, c: (int, int)) -> bool {
    on_grid(h, w, c) && c.0 % 2 == 1 && c.1 % 2 == 1
}

/// A slot: a cell off the border with exactly one odd coordinate. It lies
/// between two rooms and holds the wall that may be opened to join them.
pub open spec fn is_slot(h: int, w: int, c: (int, int)) -> bool {
    0 < c.0 < h - 1 && 0 < c.1 < w - 1 && (c.0 + c.1) % 2 == 1
}

/// The two rooms on either side of a slot.
pub open spec fn ends(s: (int, int)) -> ((int, int), (int, int)) {
    if s.0 % 2 == 0 {
        ((s.0 - 1, s.1), (s.0 + 1, s.1))
    } else {
        ((s.0, s.1 - 1), (s.0, s.1 + 1))
    }
}

/// The cell `dist` steps from `c` in direction `d`, one of `DOWN`, `UP`,
/// `LEFT` and `RIGHT`.
pub open spec fn toward(c: (int, int), d: int, dist: int) -> (int, int) {
    if d == DOWN {
        (c.0 + dist, c.1)
    } else if d == UP {
        (c.0 - dist, c.1)
    } else if d == LEFT {
        (c.0, c.1 - dist)
    } else {
        (c.0, c.1 + dist)
    }
}

/// Two cells lie two steps apart along one axis, as neighbouring rooms do.
pub open spec fn adjacent(a: (int, int), b: (int, int)) -> bool {
    ||| b == toward(a, DOWN as int, 2)
    ||| b == toward(a, UP as int, 2)
    ||| b == toward(a, LEFT as int, 2)
    ||| b == toward(a, RIGHT as int, 2)
}

/// The cell halfway between two cells.
pub open spec fn between(a: (int, int), b: (int, int)) -> (int, int) {
    ((a.0 + b.0) / 2, (a.1 + b.1) / 2)
}

/// The cell lies on the grid and is open.
pub open spec fn is_open(g: Seq<Seq<u8>>, c: (int, int)) -> bool {
    on_grid(rows(g), cols(g), c) && g[c.0][c.1] == OPEN
}

/// What a well-shaped maze asks of the cell at row `i`, column `j`: it is open
/// or a wall, open if it is a room, and a wall if it is neither room nor slot.
pub open spec fn cell_fits(g: Seq<Seq<u8>>, i: int, j: int) -> bool {
    let h = rows(g);
    let w = cols(g);
    &&& g[i][j] == OPEN || g[i][j] == WALL
    &&& is_room(h, w, (i, j)) ==> g[i][j] == OPEN
    &&& !is_room(h, w, (i, j)) && !is_slot(h, w, (i, j)) ==> g[i][j] == WALL
}

/// The grid has the shape of a maze: odd sides of at least 3, every room open,
/// and nothing open but rooms and slots.
pub open spec fn tidy(g: Seq<Seq<u8>>) -> bool {
    let h = rows(g);
    let w = cols(g);
    &&& h >= 3 && w >= 3 && h % 2 == 1 && w % 2 == 1
    &&& rect(g)
    &&& forall|i: int, j: int| 0 <= i < h && 0 <= j < w ==> #[trigger] cell_fits(g, i, j)
}

/// The grid before any wall is opened: a cell is open exactly if it is a room.
pub open spec fn untouched(g: Seq<Seq<u8>>) -> bool {
    let h = rows(g);
    let w = cols(g);
    &&& h >= 3 && w >= 3 && h % 2 == 1 && w % 2 == 1
    &&& rect(g)
    &&& forall|i: int, j: int|
        0 <= i < h && 0 <= j < w ==> #[trigger] g[i][j] == if is_room(h, w, (i, j)) {
            OPEN
        } else {
            WALL
        }
}

/// The rooms of a grid of `h` rows and `w` columns.
pub open spec fn rooms(h: int, w: int) -> Set<(int, int)> {
    Set::new(|c: (int, int)| is_room(h, w, c))
}

/// The slots of the grid whose wall has been opened.
pub open spec fn open_walls(g: Seq<Seq<u8>>) -> Set<(int, int)> {
    Set::new(|c: (int, int)| is_slot(rows(g), cols(g), c) && is_open(g, c))
}

/// Two neighbouring rooms with an open cell between them.
pub open spec fn joined(g: Seq<Seq<u8>>, a: (int, int), b: (int, int)) -> bool {
    &&& is_room(rows(g), cols(g), a)
    &&& is_room(rows(g), cols(g), b)
    &&& adjacent(a, b)
    &&& is_open(g, between(a, b))
}

/// The graph of a grid: rooms as vertices, an edge where two rooms are joined.
pub open spec fn passage(g: Seq<Seq<u8>>) -> spec_fn((int, int), (int, int)) -> bool {
    |a: (int, int), b: (int, int)| joined(g, a, b)
}

/// One can walk from room `a` to room `b` through open walls.
pub open spec fn linked(g: Seq<Seq<u8>>, a: (int, int), b: (int, int)) -> bool {
    reaches(passage(g), a, b)
}

/// Every room can be walked to from every other room.
pub open spec fn connected(g: Seq<Seq<u8>>) -> bool {
    forall|a: (int, int), b: (int, int)|
        is_room(rows(g), cols(g), a) && is_room(rows(g), cols(g), b) ==> #[trigger] linked(g, a, b)
}

/// A perfect maze: the rooms are connected through exactly one open wall
/// fewer than there are rooms, so that the open walls form a spanning tree.
pub open spec fn perfect(g: Seq<Seq<u8>>) -> bool {
    &&& tidy(g)
    &&& connected(g)
    &&& open_walls(g).finite()
    &&& open_walls(g).len() + 1 == rooms(rows(g), cols(g)).len()
}

/// A perfect maze of `h` rows and `w` columns has `(h / 2) * (w / 2) - 1`
/// open walls: one fewer than it has rooms.
pub proof fn lemma_perfect_count(g: Seq<Seq<u8>>)
    requires
        perfect(g),
    ensures
        rooms(rows(g), cols(g)).len() == (rows(g) / 2) * (cols(g) / 2),
        open_walls(g).len() == (rows(g) / 2) * (cols(g) / 2) - 1,
{
    lemma_rooms_count(rows(g), cols(g));
}

/// The rooms of one row: `row` is their row, `w` the number of columns.
pub open spec fn row_rooms(row: int, w: int) -> Set<(int, int)> {
    Set::new(|c: (int, int)| c.0 == row && 0 <= c.1 < w && c.1 % 2 == 1)
}

/// A row of a grid of `w` columns holds `w / 2` rooms.
pub proof fn lemma_row_count(row: int, w: int)
    requires
        w >= 1,
        w % 2 == 1,
    ensures
        row_rooms(row, w).finite(),
        row_rooms(row, w).len() == w / 2,
{
    let halves = set_int_range(0, w / 2);
    lemma_int_range(0, w / 2);
    let f = |k: int| (row, 2 * k + 1);
    assert forall|c: (int, int)| row_rooms(row, w).contains(c) implies halves.map(f).contains(
        c,
    ) by {
        let k = c.1 / 2;
        assert(halves.contains(k) && f(k) == c);
    }
    assert(halves.map(f) =~= row_rooms(row, w));
    assert(vstd::relations::injective_on(f, halves));
    lemma_map_size(halves, row_rooms(row, w), f);
}

/// A grid of `h` rows and `w` columns, both odd, holds `(h / 2) * (w / 2)` rooms.
pub proof fn lemma_rooms_count(h: int, w: int)
    requires
        h >= 1,
        w >= 1,
        h % 2 == 1,
        w % 2 == 1,
    ensures
        rooms(h, w).finite(),
        rooms(h, w).len() == (h / 2) * (w / 2),
    decreases h,
{
    if h == 1 {
        assert(rooms(h, w) =~= Set::empty());
        assert((h / 2) * (w / 2) == 0) by (nonlinear_arith)
            requires
                h / 2 == 0,
        ;
    } else {
        lemma_rooms_count(h - 2, w);
        lemma_row_count(h - 2, w);
        let less = rooms(h - 2, w);
        let last = row_rooms(h - 2, w);
        assert(rooms(h, w) =~= less.union(last));
        assert(less.disjoint(last));
        lemma_set_disjoint_lens(less, last);
        assert((h / 2) * (w / 2) == ((h - 2) / 2) * (w / 2) + w / 2) by (nonlinear_arith)
            requires
                h / 2 == (h - 2) / 2 + 1,
        ;
    }
}

/// A set of rooms that takes in every room next to one of its members.
pub open spec fn spreads(h: int, w: int, s: Set<(int, int)>) -> bool {
    forall|a: (int, int), d: int|
        s.contains(a) && 0 <= d < 4 && is_room(h, w, #[trigger] toward(a, d, 2)) ==> s.contains(
            toward(a, d, 2),
        )
}

/// A set of rooms that spreads and holds the room `a` holds every room `b`.
pub proof fn lemma_spread_reaches(h: int, w: int, s: Set<(int, int)>, a: (int, int), b: (int, int))
    requires
        spreads(h, w, s),
        s.contains(a),
        is_room(h, w, a),
        is_room(h, w, b),
    ensures
        s.contains(b),
    decreases vstd::math::abs(a.0 - b.0) + vstd::math::abs(a.1 - b.1),
{
    if a.0 < b.0 {
        assert(is_room(h, w, toward(a, 0, 2)));
        lemma_spread_reaches(h, w, s, toward(a, 0, 2), b);
    } else if a.0 > b.0 {
        assert(is_room(h, w, toward(a, 1, 2)));
        lemma_spread_reaches(h, w, s, toward(a, 1, 2), b);
    } else if a.1 > b.1 {
        assert(is_room(h, w, toward(a, 2, 2)));
        lemma_spread_reaches(h, w, s, toward(a, 2, 2), b);
    } else if a.1 < b.1 {
        assert(is_room(h, w, toward(a, 3, 2)));
        lemma_spread_reaches(h, w, s, toward(a, 3, 2), b);
    }
}

/// A set of rooms that spreads and holds one room is the set of all rooms.
pub proof fn lemma_spread_covers(h: int, w: int, s: Set<(int, int)>, a: (int, int))
    requires
        spreads(h, w, s),
        s.contains(a),
        is_room(h, w, a),
        s.subset_of(rooms(h, w)),
    ensures
        s == rooms(h, w),
{
    assert forall|b: (int, int)| rooms(h, w).contains(b) implies s.contains(b) by {
        lemma_spread_reaches(h, w, s, a, b);
    }
    assert(s =~= rooms(h, w));
}

/// Being joined does not depend on the order of the two rooms.
pub proof fn lemma_passage_symmetric(g: Seq<Seq<u8>>)
    ensures
        symmetric(passage(g)),
{
    assert forall|x: (int, int), y: (int, int)| #[trigger] passage(g)(x, y) implies passage(g)(
        y,
        x,
    ) by {
        assert(between(x, y) == between(y, x));
    }
}

/// Rooms that are linked stay linked in the other direction.
pub proof fn lemma_linked_back(g: Seq<Seq<u8>>, a: (int, int), b: (int, int))
    requires
        linked(g, a, b),
    ensures
        linked(g, b, a),
{
    lemma_passage_symmetric(g);
    lemma_reaches_back(passage(g), a, b);
}

/// One grid has every open cell of another grid of the same size.
pub open spec fn opens_more(g: Seq<Seq<u8>>, g2: Seq<Seq<u8>>) -> bool {
    &&& rows(g2) == rows(g)
    &&& cols(g2) == cols(g)
    &&& forall|c: (int, int)| #[trigger] is_open(g, c) ==> is_open(g2, c)
}

/// Rooms that are linked stay linked when more cells are opened.
pub proof fn lemma_linked_more(g: Seq<Seq<u8>>, g2: Seq<Seq<u8>>, a: (int, int), b: (int, int))
    requires
        opens_more(g, g2),
        linked(g, a, b),
    ensures
        linked(g2, a, b),
{
    assert forall|x: (int, int), y: (int, int)| #[trigger] passage(g)(x, y) implies passage(g2)(
        x,
        y,
    ) by {
        assert(is_open(g, between(x, y)));
    }
    lemma_reaches_more(passage(g), passage(g2), a, b);
}

/// The grid `g` with the cell `c` opened.
pub open spec fn opened(g: Seq<Seq<u8>>, c: (int, int)) -> Seq<Seq<u8>> {
    g.update(c.0, g[c.0].update(c.1, OPEN))
}

/// Opening a closed slot of a well-shaped grid leaves a well-shaped grid with
/// that one open wall more and every other cell as it was.
pub proof fn lemma_opened_slot(g: Seq<Seq<u8>>, s: (int, int))
    requires
        tidy(g),
        is_slot(rows(g), cols(g), s),
        !is_open(g, s),
    ensures
        tidy(opened(g, s)),
        opens_more(g, opened(g, s)),
        is_open(opened(g, s), s),
        forall|c: (int, int)| c != s && #[trigger] is_open(opened(g, s), c) ==> is_open(g, c),
        open_walls(opened(g, s)) == open_walls(g).insert(s),
{
    let h = rows(g);
    let w = cols(g);
    let g2 = opened(g, s);
    assert(rows(g2) == h && cols(g2) == w);
    assert(rect(g2)) by {
        assert forall|i: int| 0 <= i < g2.len() implies (#[trigger] g2[i]).len() == cols(g2) by {
            assert(g[i].len() == w);
        }
    }
    assert forall|c: (int, int)| on_grid(h, w, c) implies g2[c.0][c.1] == if c == s {
        OPEN
    } else {
        g[c.0][c.1]
    } by {
        assert(g[c.0].len() == w);
    }
    assert forall|i: int, j: int| 0 <= i < h && 0 <= j < w implies #[trigger] cell_fits(
        g2,
        i,
        j,
    ) by {
        assert(cell_fits(g, i, j));
        assert(on_grid(h, w, (i, j)));
    }
    assert forall|c: (int, int)| open_walls(g2).contains(c) <==> open_walls(g).insert(s).contains(
        c,
    ) by {
        if is_slot(h, w, c) {
            assert(on_grid(h, w, c));
        }
    }
    assert(open_walls(g2) =~= open_walls(g).insert(s));
}

/// The rooms in `t` form a tree that grows from `root`: each of them can be
/// walked to from `root`, every open wall lies between two of them, and there
/// is one open wall fewer than rooms in `t`.
pub open spec fn tree_over(g: Seq<Seq<u8>>, t: Set<(int, int)>, root: (int, int)) -> bool {
    let h = rows(g);
    let w = cols(g);
    &&& tidy(g)
    &&& t.contains(root)
    &&& t.subset_of(rooms(h, w))
    &&& forall|c: (int, int)| t.contains(c) ==> #[trigger] linked(g, root, c)
    &&& forall|s: (int, int)|
        is_slot(h, w, s) && #[trigger] is_open(g, s) ==> t.contains(ends(s).0) && t.contains(
            ends(s).1,
        )
    &&& open_walls(g).finite()
    &&& open_walls(g).len() + 1 == t.len()
}

/// A grid in which no wall is open yet has the shape of a maze.
pub proof fn lemma_untouched_tidy(g: Seq<Seq<u8>>)
    requires
        untouched(g),
    ensures
        tidy(g),
{
    let h = rows(g);
    let w = cols(g);
    assert forall|i: int, j: int| 0 <= i < h && 0 <= j < w implies #[trigger] cell_fits(
        g,
        i,
        j,
    ) by {
        assert(g[i][j] == if is_room(h, w, (i, j)) {
            OPEN
        } else {
            WALL
        });
    }
}

/// A grid in which no wall is open yet holds the tree that is `root` alone.
pub proof fn lemma_tree_seed(g: Seq<Seq<u8>>, root: (int, int))
    requires
        untouched(g),
        is_room(rows(g), cols(g), root),
    ensures
        tree_over(g, set![root], root),
{
    let h = rows(g);
    let w = cols(g);
    lemma_untouched_tidy(g);
    assert forall|s: (int, int)| is_slot(h, w, s) implies !is_open(g, s) by {
        assert(g[s.0][s.1] == WALL);
    }
    assert(open_walls(g) =~= Set::empty());
    lemma_reaches_self(passage(g), root);
    assert(set![root].len() == 1);
}

/// Opening the wall between a room `a` of the tree and a neighbouring room `b`
/// outside it makes the tree grow by `b`.
pub proof fn lemma_tree_grows(
    g: Seq<Seq<u8>>,
    t: Set<(int, int)>,
    root: (int, int),
    a: (int, int),
    b: (int, int),
)
    requires
        tree_over(g, t, root),
        t.finite(),
        t.contains(a),
        is_room(rows(g), cols(g), b),
        !t.contains(b),
        adjacent(a, b),
    ensures
        tree_over(opened(g, between(a, b)), t.insert(b), root),
        opens_more(g, opened(g, between(a, b))),
        !is_open(g, between(a, b)),
{
    let h = rows(g);
    let w = cols(g);
    let mid = between(a, b);
    let g2 = opened(g, mid);
    let t2 = t.insert(b);
    assert(is_room(h, w, a));
    lemma_between_rooms(h, w, a, b);
    assert(!is_open(g, mid));
    lemma_opened_slot(g, mid);
    assert forall|c: (int, int)| t2.contains(c) implies #[trigger] linked(g2, root, c) by {
        lemma_linked_more(g, g2, root, a);
        if c == b {
            assert(passage(g2)(a, b));
            lemma_reaches_step(passage(g2), root, a, b);
        } else {
            lemma_linked_more(g, g2, root, c);
        }
    }
}

/// A tree that holds every room makes the grid a perfect maze.
pub proof fn lemma_tree_spans(g: Seq<Seq<u8>>, root: (int, int))
    requires
        tree_over(g, rooms(rows(g), cols(g)), root),
    ensures
        perfect(g),
{
    assert forall|a: (int, int), b: (int, int)|
        is_room(rows(g), cols(g), a) && is_room(rows(g), cols(g), b) implies #[trigger] linked(
        g,
        a,
        b,
    ) by {
        assert(rooms(rows(g), cols(g)).contains(a));
        assert(rooms(rows(g), cols(g)).contains(b));
        assert(linked(g, root, a));
        assert(linked(g, root, b));
        lemma_linked_back(g, root, a);
        lemma_reaches_trans(passage(g), a, root, b);
    }
}

/// The cell between two neighbouring rooms is a slot, and the two rooms are
/// its ends.
pub proof fn lemma_between_rooms(h: int, w: int, a: (int, int), b: (int, int))
    requires
        h % 2 == 1,
        w % 2 == 1,
        is_room(h, w, a),
        is_room(h, w, b),
        adjacent(a, b),
    ensures
        is_slot(h, w, between(a, b)),
        on_grid(h, w, between(a, b)),
        ends(between(a, b)) == (a, b) || ends(between(a, b)) == (b, a),
        between(a, b) == between(b, a),
        forall|d: int| 0 <= d < 4 && b == toward(a, d, 2) ==> between(a, b) == toward(a, d, 1),
{
}

/// A grid with more than one room has, for every room, a room other than it.
pub proof fn lemma_second_room(h: int, w: int, a: (int, int)) -> (b: (int, int))
    requires
        h >= 3,
        w >= 3,
        h % 2 == 1,
        w % 2 == 1,
        h > 3 || w > 3,
    ensures
        is_room(h, w, b),
        b != a,
{
    if a != (1int, 1int) {
        (1int, 1int)
    } else if h > 3 {
        (3int, 1int)
    } else {
        (1int, 3int)
    }
}

/// The room `a` has an open wall next to it that joins it to another room.
pub open spec fn has_way_out(g: Seq<Seq<u8>>, a: (int, int)) -> bool {
    exists|b: (int, int)| #[trigger] joined(g, a, b)
}

/// In a connected maze with more than one room, no room is alone: every room
/// has an open wall next to it that joins it to another room.
pub proof fn lemma_no_room_alone(g: Seq<Seq<u8>>)
    requires
        tidy(g),
        connected(g),
        rows(g) > 3 || cols(g) > 3,
    ensures
        forall|a: (int, int)| is_room(rows(g), cols(g), a) ==> #[trigger] has_way_out(g, a),
{
    assert forall|a: (int, int)| is_room(rows(g), cols(g), a) implies #[trigger] has_way_out(
        g,
        a,
    ) by {
        let other = lemma_second_room(rows(g), cols(g), a);
        assert(linked(g, a, other));
        let b = lemma_reaches_leaves(passage(g), a, other);
        assert(joined(g, a, b));
    }
}

} // verus!
