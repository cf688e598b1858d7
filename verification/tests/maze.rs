use mazegen::matrix::Matrix;
use mazegen::rand::{RandomSource, Seeded};
use mazegen::{GenTactic, Maze};

struct Stuck(usize);

impl RandomSource for Stuck {
    fn uniform(&mut self, n: usize) -> usize {
        self.0 % n
    }
}

fn tactics() -> Vec<GenTactic> {
    vec![GenTactic::Dfs, GenTactic::Kruskal, GenTactic::Wilson]
}

fn room_count(maze: &Maze) -> usize {
    (maze.width() / 2) * (maze.height() / 2)
}

fn open_wall_count(maze: &Maze) -> usize {
    let mut count = 0;
    for i in 0..maze.height() {
        for j in 0..maze.width() {
            if (i + j) % 2 == 1 && maze.at(i, j) == Some(0) {
                count += 1;
            }
        }
    }
    count
}

fn shape_is_kept(maze: &Maze) {
    for i in 0..maze.height() {
        for j in 0..maze.width() {
            let cell = maze.at(i, j).unwrap();
            let border = i == 0 || j == 0 || i == maze.height() - 1 || j == maze.width() - 1;
            if i % 2 == 1 && j % 2 == 1 {
                assert_eq!(cell, 0);
            } else if border || (i % 2 == 0 && j % 2 == 0) {
                assert_eq!(cell, 1);
            } else {
                assert!(cell == 0 || cell == 1);
            }
        }
    }
}

fn rooms_reached_from_first(maze: &Maze) -> usize {
    let mut seen = Matrix::new(maze.height(), maze.width(), false);
    let mut stack = vec![(1usize, 1usize)];
    seen.update(1, 1, true);
    let mut reached = 0;
    while let Some((i, j)) = stack.pop() {
        reached += 1;
        let steps: [(isize, isize); 4] = [(1, 0), (-1, 0), (0, -1), (0, 1)];
        for (di, dj) in steps {
            let wall = ((i as isize + di) as usize, (j as isize + dj) as usize);
            let next = ((i as isize + 2 * di) as usize, (j as isize + 2 * dj) as usize);
            if maze.at(wall.0, wall.1) == Some(0) && seen.at(next.0, next.1) == Some(false) {
                seen.update(next.0, next.1, true);
                stack.push(next);
            }
        }
    }
    reached
}

fn is_perfect(maze: &Maze) {
    shape_is_kept(maze);
    assert_eq!(open_wall_count(maze) + 1, room_count(maze));
    assert_eq!(rooms_reached_from_first(maze), room_count(maze));
}

fn no_room_is_alone(maze: &Maze) {
    let dir_i = [-1, 1, 0, 0];
    let dir_j = [0, 0, -1, 1];
    for i in (1..maze.height()).step_by(2) {
        for j in (1..maze.width()).step_by(2) {
            let mut joined = false;
            for dir in 0..4 {
                let cell = (
                    (i as isize + dir_i[dir]) as usize,
                    (j as isize + dir_j[dir]) as usize,
                );
                if maze.at(cell.0, cell.1) == Some(0) {
                    joined = true;
                }
            }
            assert!(joined);
        }
    }
}

#[test]
fn dfs_gen_conne() {
    let width: usize = 11;
    let height: usize = 11;

    let mut maze = Maze::new(width, height);
    maze.gen(GenTactic::Dfs);

    let mut conn = Matrix::new(height, width, false);

    let dir_i = [-1, 1, 0, 0];
    let dir_j = [0, 0, -1, 1];
    for i in (1..height).step_by(2) {
        for j in (1..width).step_by(2) {
            for dir in 0..4 {
                let cell = (
                    (i as isize + dir_i[dir]) as usize,
                    (j as isize + dir_j[dir]) as usize,
                );

                if maze.at(cell.0, cell.1).unwrap() == 0 {
                    conn.update(i, j, true);
                }
            }
        }
    }

    for i in (1..height).step_by(2) {
        for j in (1..width).step_by(2) {
            assert_eq!(conn.at(i, j), Some(true));
        }
    }
}

#[test]
fn kruskal_gen_conne() {
    let width: usize = 11;
    let height: usize = 11;

    let mut maze = Maze::new(width, height);
    maze.gen(GenTactic::Kruskal);

    let mut conn = Matrix::new(height, width, false);

    let dir_i = [-1, 1, 0, 0];
    let dir_j = [0, 0, -1, 1];
    for i in (1..height).step_by(2) {
        for j in (1..width).step_by(2) {
            for dir in 0..4 {
                let cell = (
                    (i as isize + dir_i[dir]) as usize,
                    (j as isize + dir_j[dir]) as usize,
                );

                if maze.at(cell.0, cell.1).unwrap() == 0 {
                    conn.update(i, j, true);
                }
            }
        }
    }

    for i in (1..height).step_by(2) {
        for j in (1..width).step_by(2) {
            assert_eq!(conn.at(i, j), Some(true));
        }
    }
}

#[test]
fn maze_size_validation() {
    let maze = Maze::new(3, 2);
    assert_eq!(maze.width(), 3);
    assert_eq!(maze.height(), 3);

    let maze = Maze::new(2, 3);
    assert_eq!(maze.width(), 3);
    assert_eq!(maze.height(), 3);

    let maze = Maze::new(1, 1);
    assert_eq!(maze.width(), 3);
    assert_eq!(maze.height(), 3);

    let maze = Maze::new(4, 3);
    assert_eq!(maze.width(), 5);
    assert_eq!(maze.height(), 3);

    let maze = Maze::new(3, 4);
    assert_eq!(maze.width(), 3);
    assert_eq!(maze.height(), 5);

    let maze = Maze::new(8, 8);
    assert_eq!(maze.width(), 9);
    assert_eq!(maze.height(), 9);
}

#[test]
fn grid_init() {
    for width in 3..50 {
        for height in 3..50 {
            let maze = Maze::new(width, height);

            for i in 0..maze.height() {
                for j in 0..maze.width() {
                    if i % 2 == 1 && j % 2 == 1 {
                        assert_eq!(maze.at(i, j), Some(0));
                    } else {
                        assert_eq!(maze.at(i, j), Some(1));
                    }
                }
            }
        }
    }
}

#[test]
fn sides_are_odd_and_at_least_three() {
    for width in 0..40 {
        for height in 0..40 {
            let maze = Maze::new(width, height);
            assert!(maze.width() >= 3 && maze.width() % 2 == 1);
            assert!(maze.height() >= 3 && maze.height() % 2 == 1);
            assert!(maze.width() >= width && maze.width() <= width.max(3) + 1);
            assert!(maze.height() >= height && maze.height() <= height.max(3) + 1);
            assert_eq!(maze.dimensions(), (maze.width(), maze.height()));
        }
    }
}

#[test]
fn smallest_maze_is_one_room() {
    let maze = Maze::new(3, 3);
    for i in 0..3 {
        for j in 0..3 {
            let expected = if (i, j) == (1, 1) { 0 } else { 1 };
            assert_eq!(maze.at(i, j), Some(expected));
        }
    }
    assert_eq!(maze.at(3, 0), None);
    assert_eq!(maze.at(0, 3), None);
}

#[test]
fn smallest_maze_stays_one_room() {
    for tactic in tactics() {
        let mut maze = Maze::new(3, 3);
        maze.gen_with(tactic, &mut Seeded::new(1));
        assert_eq!(open_wall_count(&maze), 0);
        is_perfect(&maze);
    }
}

#[test]
fn at_outside_the_maze() {
    let maze = Maze::new(5, 7);
    assert_eq!(maze.at(7, 0), None);
    assert_eq!(maze.at(0, 5), None);
    assert_eq!(maze.at(6, 4), Some(1));
    assert_eq!(maze.at(5, 3), Some(0));
    assert_eq!(maze.at(usize::MAX, 1), None);
}

#[test]
fn wilson_gen_conne() {
    let mut maze = Maze::new(11, 11);
    maze.gen(GenTactic::Wilson);
    no_room_is_alone(&maze);
}

#[test]
fn every_tactic_carves_a_spanning_tree() {
    for seed in 0..8 {
        for (width, height) in [(11, 11), (5, 3), (3, 9), (21, 13), (4, 6)] {
            for tactic in tactics() {
                let mut maze = Maze::new(width, height);
                maze.gen_with(tactic, &mut Seeded::new(seed));
                is_perfect(&maze);
                no_room_is_alone(&maze);
            }
        }
    }
}

#[test]
fn clock_driven_tactics_carve_a_spanning_tree() {
    for tactic in tactics() {
        let mut maze = Maze::new(15, 9);
        maze.gen(tactic);
        assert_eq!(maze.dimensions(), (15, 9));
        is_perfect(&maze);
    }
}

#[test]
fn open_walls_are_one_fewer_than_rooms() {
    for tactic in tactics() {
        let mut maze = Maze::new(11, 11);
        maze.gen_with(tactic, &mut Seeded::new(5));
        assert_eq!(open_wall_count(&maze), 24);
    }
    for tactic in tactics() {
        let mut maze = Maze::new(7, 3);
        maze.gen_with(tactic, &mut Seeded::new(5));
        assert_eq!(open_wall_count(&maze), 2);
        // three rooms in a row leave one tree only
        assert_eq!(maze.at(1, 2), Some(0));
        assert_eq!(maze.at(1, 4), Some(0));
    }
}

#[test]
fn a_source_that_never_varies_still_gives_a_maze() {
    for stuck in 0..4 {
        for tactic in tactics() {
            let mut maze = Maze::new(9, 7);
            maze.gen_with(tactic, &mut Stuck(stuck));
            is_perfect(&maze);
        }
    }
}

#[test]
fn generating_again_starts_over() {
    let mut maze = Maze::new(9, 9);
    maze.gen_with(GenTactic::Dfs, &mut Seeded::new(1));
    is_perfect(&maze);
    maze.gen_with(GenTactic::Kruskal, &mut Seeded::new(2));
    is_perfect(&maze);
    maze.gen_with(GenTactic::Wilson, &mut Seeded::new(3));
    is_perfect(&maze);
    maze.gen(GenTactic::Dfs);
    is_perfect(&maze);
}

#[test]
fn same_seed_same_maze() {
    for tactic in tactics() {
        let mut first = Maze::new(13, 11);
        let mut second = Maze::new(13, 11);
        let again = match tactic {
            GenTactic::Dfs => GenTactic::Dfs,
            GenTactic::Kruskal => GenTactic::Kruskal,
            GenTactic::Wilson => GenTactic::Wilson,
        };
        first.gen_with(tactic, &mut Seeded::new(99));
        second.gen_with(again, &mut Seeded::new(99));
        for i in 0..11 {
            for j in 0..13 {
                assert_eq!(first.at(i, j), second.at(i, j));
            }
        }
    }
}
