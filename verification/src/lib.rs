//! Perfect-maze generation on a doubled lattice.
//!
//! Rooms sit on the cells whose row and column are both odd; the cell between
//! two neighbouring rooms is a wall that a generation tactic may open. Every
//! tactic leaves the rooms joined as a spanning tree.

pub mod backtracker;
pub mod carve;
pub mod dsu;
pub mod graph;
pub mod kruskal;
pub mod lattice;
pub mod matrix;
pub mod partition;
pub mod rand;
pub mod wilson;

pub use dsu::Dsu;
pub use matrix::Matrix;

use lattice::{
    cols, has_way_out, is_room, lemma_no_room_alone, lemma_perfect_count, on_grid, open_walls,
    perfect, rows, tidy, untouched, OPEN, WALL,
};
use rand::{Clock, RandomSource};
use vstd::prelude::*;

verus! {

/// The available maze generation tactics, chosen for their different strengths.
///
/// - Randomized `Dfs` generates a maze biased towards long corridors.
///
/// - Randomized `Kruskal` generates a maze biased towards short corridors.
///
/// - `Wilson`'s algorithm performs an unbiased maze generation.
#[derive(Clone, Copy, Debug)]
pub enum GenTactic {
    Dfs,
    Kruskal,
    Wilson,
}

/// A maze on a grid that counts the walls too: the width and the height cover
/// rooms and walls alike. A maze of 3 by 3 starts out as
///
/// ```markdown
/// +-------+
/// | 1 1 1 |
/// | 1 0 1 |
/// | 1 1 1 |
/// +-------+
/// ```
///
/// where `0` is an open cell (walkable) and `1` is a wall.
pub struct Maze {
    width: usize,
    height: usize,
    grid: Matrix<u8>,
}

impl View for Maze {
    type V = Seq<Seq<u8>>;

    /// The grid as a sequence of rows of cell states.
    closed spec fn view(&self) -> Seq<Seq<u8>> {
        self.grid@
    }
}

/// The side that a requested side is corrected to: at least 3, and the next
/// odd number if it is even.
pub open spec fn odd_side(n: int) -> int {
    let m = if n < 3 {
        3
    } else {
        n
    };
    if m % 2 == 0 {
        m + 1
    } else {
        m
    }
}

/// A corrected side is odd and at least 3; it is the requested side itself
/// where that is odd and at least 3, and never more than one above it otherwise.
pub proof fn lemma_odd_side(n: int)
    ensures
        odd_side(n) >= 3,
        odd_side(n) % 2 == 1,
        n >= 3 && n % 2 == 1 ==> odd_side(n) == n,
        n >= 3 ==> n <= odd_side(n) <= n + 1,
        n < 3 ==> odd_side(n) == 3,
{
}

/// The grid for the requested sides has no more cells than a machine integer
/// can count. Sides of up to 65535 always give such a grid, which is said
/// apart so that it can be seen without multiplying.
pub open spec fn grid_fits(width: int, height: int) -> bool {
    (width <= 0xffff && height <= 0xffff) || odd_side(width) * odd_side(height) <= usize::MAX
}

/// Sides of up to 65535 give a grid that a machine integer can count.
pub proof fn lemma_small_sides_fit(width: int, height: int)
    requires
        width <= 0xffff,
        height <= 0xffff,
    ensures
        0 < odd_side(width) * odd_side(height) <= usize::MAX,
{
    let w = odd_side(width);
    let h = odd_side(height);
    assert(0 < w * h <= 0xffff * 0xffff) by (nonlinear_arith)
        requires
            3 <= w <= 0xffff,
            3 <= h <= 0xffff,
    ;
}

/// Corrects a requested side to an odd side of at least 3.
fn fit_side(n: usize) -> (m: usize)
    ensures
        m == odd_side(n as int),
{
    let m: usize = if n < 3 {
        3
    } else {
        n
    };
    if m % 2 == 0 {
        m + 1
    } else {
        m
    }
}

/// A grid of `height` rows and `width` columns in which exactly the rooms are open.
fn blank(height: usize, width: usize) -> (grid: Matrix<u8>)
    requires
        height >= 3,
        width >= 3,
        height % 2 == 1,
        width % 2 == 1,
        height * width <= usize::MAX,
    ensures
        grid.wf(),
        grid.rows() == height,
        grid.cols() == width,
        untouched(grid@),
{
    let mut grid = Matrix::new(height, width, WALL);
    let mut i: usize = 1;
    while i < height
        invariant
            1 <= i <= height,
            width >= 3,
            grid.wf(),
            grid.rows() == height,
            grid.cols() == width,
            forall|r: int, c: int|
                0 <= r < height && 0 <= c < width ==> #[trigger] grid@[r][c] == if r < i && is_room(
                    height as int,
                    width as int,
                    (r, c),
                ) {
                    OPEN
                } else {
                    WALL
                },
        decreases height - i,
    {
        let mut j: usize = 1;
        while j < width
            invariant
                1 <= i < height,
                1 <= j <= width,
                grid.wf(),
                grid.rows() == height,
                grid.cols() == width,
                forall|r: int, c: int|
                    0 <= r < height && 0 <= c < width ==> #[trigger] grid@[r][c] == if (r < i || (r
                        == i && c < j)) && is_room(height as int, width as int, (r, c)) {
                        OPEN
                    } else {
                        WALL
                    },
            decreases width - j,
        {
            if i % 2 == 1 && j % 2 == 1 {
                grid.update(i, j, OPEN);
            }
            j += 1;
        }
        i += 1;
    }
    grid
}

impl Maze {
    /// The stored sides are those of the stored grid.
    pub closed spec fn consistent(&self) -> bool {
        &&& self.grid.wf()
        &&& self.grid.rows() == self.height
        &&& self.grid.cols() == self.width
    }

    /// The maze is well formed: its grid has odd sides of at least 3, every
    /// room is open, and nothing is open but rooms and walls between rooms.
    pub open spec fn wf(&self) -> bool {
        self.consistent() && tidy(self@)
    }

    /// Builds a maze in which no wall is open yet.
    ///
    /// A side below 3 is raised to 3, and an even side is raised by one, so
    /// that both sides are odd.
    pub fn new(width: usize, height: usize) -> (maze: Self)
        requires
            grid_fits(width as int, height as int),
        ensures
            maze.wf(),
            cols(maze@) == odd_side(width as int),
            rows(maze@) == odd_side(height as int),
            cols(maze@) >= 3 && cols(maze@) % 2 == 1,
            rows(maze@) >= 3 && rows(maze@) % 2 == 1,
            untouched(maze@),
            forall|i: int, j: int|
                0 <= i < rows(maze@) && 0 <= j < cols(maze@) ==> (#[trigger] maze@[i][j] == OPEN
                    <==> i % 2 == 1 && j % 2 == 1),
    {
        proof {
            if width <= 0xffff && height <= 0xffff {
                lemma_small_sides_fit(width as int, height as int);
            }
        }
        let width = fit_side(width);
        let height = fit_side(height);
        assert(height * width == width * height) by (nonlinear_arith);
        let grid = blank(height, width);
        proof {
            lattice::lemma_untouched_tidy(grid@);
        }
        Self { width, height, grid }
    }

    /// Generates a new maze with the given tactic and numbers from the system
    /// clock.
    ///
    /// `gen` mutates the grid: whatever was carved before is closed again,
    /// and the tactic then opens walls until the rooms form a spanning tree.
    pub fn gen(&mut self, tactic: GenTactic)
        requires
            old(self).wf(),
        ensures
            final(self).wf(),
            rows(final(self)@) == rows(old(self)@),
            cols(final(self)@) == cols(old(self)@),
            perfect(final(self)@),
            open_walls(final(self)@).len() == (rows(old(self)@) / 2) * (cols(old(self)@) / 2) - 1,
            rows(old(self)@) > 3 || cols(old(self)@) > 3 ==> forall|a: (int, int)|
                is_room(rows(old(self)@), cols(old(self)@), a) ==> #[trigger] has_way_out(
                    final(self)@,
                    a,
                ),
    {
        let mut clock = Clock;
        self.gen_with(tactic, &mut clock)
    }

    /// Generates a new maze with the given tactic and numbers from `rng`.
    ///
    /// Whatever was carved before is closed again first. Whatever `rng`
    /// hands out, the result is a perfect maze of the same size.
    pub fn gen_with<R: RandomSource>(&mut self, tactic: GenTactic, rng: &mut R)
        requires
            old(self).wf(),
        ensures
            final(self).wf(),
            rows(final(self)@) == rows(old(self)@),
            cols(final(self)@) == cols(old(self)@),
            perfect(final(self)@),
            open_walls(final(self)@).len() == (rows(old(self)@) / 2) * (cols(old(self)@) / 2) - 1,
            rows(old(self)@) > 3 || cols(old(self)@) > 3 ==> forall|a: (int, int)|
                is_room(rows(old(self)@), cols(old(self)@), a) ==> #[trigger] has_way_out(
                    final(self)@,
                    a,
                ),
    {
        proof {
            self.grid.lemma_fits();
            assert(self.height * self.width == self.width * self.height) by (nonlinear_arith);
        }
        self.grid = blank(self.height, self.width);
        proof {
            lattice::lemma_untouched_tidy(self@);
        }
        match tactic {
            GenTactic::Dfs => self.rand_dfs(rng),
            GenTactic::Kruskal => self.rand_kruskal(rng),
            GenTactic::Wilson => self.wilson(rng),
        }
        proof {
            lemma_perfect_count(self@);
            if rows(self@) > 3 || cols(self@) > 3 {
                lemma_no_room_alone(self@);
            }
        }
    }

    /// The number of columns, walls included.
    pub fn width(&self) -> (w: usize)
        requires
            self.wf(),
        ensures
            w == cols(self@),
    {
        self.width
    }

    /// The number of rows, walls included.
    pub fn height(&self) -> (h: usize)
        requires
            self.wf(),
        ensures
            h == rows(self@),
    {
        self.height
    }

    /// The width and the height, in this order.
    pub fn dimensions(&self) -> (d: (usize, usize))
        requires
            self.wf(),
        ensures
            d.0 == cols(self@),
            d.1 == rows(self@),
    {
        (self.width, self.height)
    }

    /// The state of the cell at row `i`, column `j`, if the cell exists:
    /// `OPEN` or `WALL`.
    pub fn at(&self, i: usize, j: usize) -> (cell: Option<u8>)
        requires
            self.wf(),
        ensures
            cell == if on_grid(rows(self@), cols(self@), (i as int, j as int)) {
                Some(self@[i as int][j as int])
            } else {
                None
            },
    {
        self.grid.at(i, j)
    }
}

} // verus!
