use mazegen::backtracker::first_fresh;
use mazegen::carve::{directions, midpoint, shift};
use mazegen::lattice::{DOWN, LEFT, RIGHT, UP};
use mazegen::matrix::Matrix;
use mazegen::rand::{RandomSource, Seeded};
use mazegen::wilson::{erased_walk, position, step_to, walk_budget};
use mazegen::Maze;

struct Fixed(usize);

impl RandomSource for Fixed {
    fn uniform(&mut self, n: usize) -> usize {
        self.0 % n
    }
}

fn is_spanning_tree(maze: &Maze) {
    let rooms = (maze.width() / 2) * (maze.height() / 2);
    let mut open_walls = 0;
    for i in 0..maze.height() {
        for j in 0..maze.width() {
            if (i + j) % 2 == 1 && maze.at(i, j) == Some(0) {
                open_walls += 1;
            }
        }
    }
    assert_eq!(open_walls + 1, rooms);

    let mut seen = vec![(1usize, 1usize)];
    let mut next = 0;
    while next < seen.len() {
        let (i, j) = seen[next];
        next += 1;
        for d in 0..4 {
            let wall = shift((i, j), d, 1).unwrap();
            if maze.at(wall.0, wall.1) == Some(0) {
                let room = shift((i, j), d, 2).unwrap();
                if !seen.contains(&room) {
                    seen.push(room);
                }
            }
        }
    }
    assert_eq!(seen.len(), rooms);
}

#[test]
fn shift_moves_along_one_axis() {
    assert_eq!(shift((3, 5), DOWN, 2), Some((5, 5)));
    assert_eq!(shift((3, 5), UP, 2), Some((1, 5)));
    assert_eq!(shift((3, 5), LEFT, 2), Some((3, 3)));
    assert_eq!(shift((3, 5), RIGHT, 2), Some((3, 7)));
    assert_eq!(shift((3, 5), UP, 1), Some((2, 5)));
    assert_eq!(shift((3, 5), RIGHT, 0), Some((3, 5)));
}

#[test]
fn shift_stops_at_the_ends_of_the_integers() {
    assert_eq!(shift((1, 5), UP, 2), None);
    assert_eq!(shift((3, 1), LEFT, 2), None);
    assert_eq!(shift((1, 1), UP, 1), Some((0, 1)));
    assert_eq!(shift((usize::MAX, 0), DOWN, 1), None);
    assert_eq!(shift((0, usize::MAX - 1), RIGHT, 2), None);
    assert_eq!(shift((0, usize::MAX - 1), RIGHT, 1), Some((0, usize::MAX)));
}

#[test]
fn midpoint_lies_between() {
    assert_eq!(midpoint((1, 1), (1, 3)), (1, 2));
    assert_eq!(midpoint((1, 3), (1, 1)), (1, 2));
    assert_eq!(midpoint((3, 1), (1, 1)), (2, 1));
    assert_eq!(midpoint((5, 7), (7, 7)), (6, 7));
}

#[test]
fn directions_are_all_four() {
    for seed in 0..50 {
        let mut dirs = directions(&mut Seeded::new(seed));
        assert_eq!(dirs.len(), 4);
        dirs.sort();
        assert_eq!(dirs, vec![DOWN, UP, LEFT, RIGHT]);
    }
    assert_eq!(directions(&mut Fixed(0)), vec![UP, LEFT, RIGHT, DOWN]);
    assert_eq!(directions(&mut Fixed(3)), vec![LEFT, UP, DOWN, RIGHT]);
}

#[test]
fn directions_come_in_every_order() {
    let mut g = Seeded::new(1);
    let mut seen: Vec<Vec<usize>> = Vec::new();
    for _ in 0..2000 {
        let dirs = directions(&mut g);
        if !seen.contains(&dirs) {
            seen.push(dirs);
        }
    }
    assert_eq!(seen.len(), 24);
}

#[test]
fn first_fresh_follows_the_order() {
    let mut marks = Matrix::new(5, 5, false);
    marks.update(1, 1, true);

    assert_eq!(first_fresh(&marks, (1, 1), &vec![DOWN, UP, LEFT, RIGHT]), Some((3, 1)));
    assert_eq!(first_fresh(&marks, (1, 1), &vec![UP, LEFT, RIGHT, DOWN]), Some((1, 3)));
    assert_eq!(first_fresh(&marks, (3, 3), &vec![UP, LEFT, RIGHT, DOWN]), Some((1, 3)));

    marks.update(3, 1, true);
    assert_eq!(first_fresh(&marks, (1, 1), &vec![DOWN, UP, LEFT, RIGHT]), Some((1, 3)));
    marks.update(1, 3, true);
    assert_eq!(first_fresh(&marks, (1, 1), &vec![DOWN, UP, LEFT, RIGHT]), None);
    assert_eq!(first_fresh(&marks, (3, 1), &vec![LEFT, DOWN, UP, RIGHT]), Some((3, 3)));
}

#[test]
fn position_finds_the_first_place() {
    let path = vec![(1, 1), (1, 3), (3, 3), (1, 3)];
    assert_eq!(position(&path, (1, 1)), Some(0));
    assert_eq!(position(&path, (1, 3)), Some(1));
    assert_eq!(position(&path, (3, 3)), Some(2));
    assert_eq!(position(&path, (3, 1)), None);
    assert_eq!(position(&Vec::new(), (1, 1)), None);
}

#[test]
fn step_to_erases_loops() {
    let mut path = vec![(1, 1), (1, 3), (3, 3)];
    step_to(&mut path, (3, 1));
    assert_eq!(path, vec![(1, 1), (1, 3), (3, 3), (3, 1)]);

    step_to(&mut path, (1, 1));
    assert_eq!(path, vec![(1, 1)]);

    let mut path = vec![(1, 1), (1, 3), (3, 3), (3, 1)];
    step_to(&mut path, (1, 3));
    assert_eq!(path, vec![(1, 1), (1, 3)]);

    let mut path = vec![(1, 1), (1, 3)];
    step_to(&mut path, (1, 3));
    assert_eq!(path, vec![(1, 1), (1, 3)]);
}

#[test]
fn walk_budget_counts_cells() {
    assert_eq!(walk_budget(&Matrix::new(5, 5, false)), 1600);
    assert_eq!(walk_budget(&Matrix::new(3, 7, false)), 1344);
    assert_eq!(walk_budget(&Matrix::new(0, 7, false)), 0);
}

#[test]
fn erased_walk_ends_in_the_tree() {
    for seed in 0..30 {
        let mut in_tree = Matrix::new(9, 9, false);
        in_tree.update(1, 1, true);
        in_tree.update(1, 3, true);
        let path = erased_walk(&in_tree, (7, 7), (1, 1), &mut Seeded::new(seed));

        assert!(path.len() >= 2);
        assert_eq!(path[0], (7, 7));
        let last = path[path.len() - 1];
        assert_eq!(in_tree.at(last.0, last.1), Some(true));
        for k in 0..path.len() {
            let (i, j) = path[k];
            assert!(i % 2 == 1 && j % 2 == 1 && i < 9 && j < 9);
            if k + 1 < path.len() {
                assert_eq!(in_tree.at(i, j), Some(false));
                let (ni, nj) = path[k + 1];
                assert_eq!(i.abs_diff(ni) + j.abs_diff(nj), 2);
                assert!(i == ni || j == nj);
            }
            for l in 0..k {
                assert_ne!(path[l], path[k]);
            }
        }
    }
}

#[test]
fn erased_walk_heads_for_the_root_in_the_end() {
    // a source that always points down never leaves the bottom row
    let mut in_tree = Matrix::new(5, 5, false);
    in_tree.update(1, 1, true);
    let path = erased_walk(&in_tree, (3, 3), (1, 1), &mut Fixed(DOWN));
    assert_eq!(path, vec![(3, 3), (1, 3), (1, 1)]);

    // one that always points right walks to the wall and heads back
    let path = erased_walk(&in_tree, (3, 1), (1, 1), &mut Fixed(RIGHT));
    assert_eq!(path, vec![(3, 1), (3, 3), (1, 3), (1, 1)]);

    // one that always points up reaches the root by itself
    let path = erased_walk(&in_tree, (3, 1), (1, 1), &mut Fixed(UP));
    assert_eq!(path, vec![(3, 1), (1, 1)]);
}

#[test]
fn tactics_can_be_called_by_name() {
    let mut maze = Maze::new(9, 5);
    maze.rand_dfs(&mut Seeded::new(4));
    is_spanning_tree(&maze);

    let mut maze = Maze::new(9, 5);
    maze.rand_kruskal(&mut Seeded::new(4));
    is_spanning_tree(&maze);

    let mut maze = Maze::new(9, 5);
    maze.wilson(&mut Seeded::new(4));
    is_spanning_tree(&maze);
}

#[test]
fn backtracker_with_a_fixed_source_digs_one_corridor() {
    // the draw is always 0: the walk starts at the first room and tries up,
    // left, right, down in this order
    let mut maze = Maze::new(5, 5);
    maze.rand_dfs(&mut Fixed(0));
    is_spanning_tree(&maze);
    assert_eq!(maze.at(1, 2), Some(0));
    assert_eq!(maze.at(2, 3), Some(0));
    assert_eq!(maze.at(3, 2), Some(0));
    assert_eq!(maze.at(2, 1), Some(1));
}
