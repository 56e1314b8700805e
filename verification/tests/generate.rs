use maze::grid::Maze;
use maze::picker::Picker;

fn rows_of(maze: &Maze) -> Vec<String> {
    let mut rows = Vec::new();
    for y in 0..maze.height() {
        let mut row = String::new();
        for x in 0..maze.width() {
            row.push(if maze.is_wall(x, y) { '#' } else { '.' });
        }
        rows.push(row);
    }
    rows
}

fn passages(maze: &Maze) -> usize {
    let mut count = 0;
    for x in 0..maze.width() {
        for y in 0..maze.height() {
            if !maze.is_wall(x, y) {
                count += 1;
            }
        }
    }
    count
}

fn reachable_from_origin(maze: &Maze) -> usize {
    let (w, h) = (maze.width(), maze.height());
    let mut seen = vec![vec![false; h]; w];
    let mut queue = vec![(0usize, 0usize)];
    seen[0][0] = true;
    let mut count = 0;
    while let Some((x, y)) = queue.pop() {
        count += 1;
        let mut next = Vec::new();
        if x + 1 < w {
            next.push((x + 1, y));
        }
        if x > 0 {
            next.push((x - 1, y));
        }
        if y + 1 < h {
            next.push((x, y + 1));
        }
        if y > 0 {
            next.push((x, y - 1));
        }
        for (nx, ny) in next {
            if !maze.is_wall(nx, ny) && !seen[nx][ny] {
                seen[nx][ny] = true;
                queue.push((nx, ny));
            }
        }
    }
    count
}

fn links(maze: &Maze) -> usize {
    let mut count = 0;
    for x in 0..maze.width() {
        for y in 0..maze.height() {
            if !maze.is_wall(x, y) && (x % 2 + y % 2 == 1) {
                count += 1;
            }
        }
    }
    count
}

fn rooms(maze: &Maze) -> usize {
    let mut count = 0;
    for x in 0..maze.width() {
        for y in 0..maze.height() {
            if !maze.is_wall(x, y) && x % 2 == 0 && y % 2 == 0 {
                count += 1;
            }
        }
    }
    count
}

fn check_perfect(maze: &Maze) {
    let (w, h) = (maze.width(), maze.height());
    let all_rooms = ((w + 1) / 2) * ((h + 1) / 2);
    assert_eq!(rooms(maze), all_rooms);
    assert_eq!(links(maze), all_rooms - 1);
    assert_eq!(passages(maze), 2 * all_rooms - 1);
    assert_eq!(reachable_from_origin(maze), passages(maze));
    for x in 0..w {
        for y in 0..h {
            if x % 2 == 1 && y % 2 == 1 {
                assert!(maze.is_wall(x, y));
            }
        }
    }
}

#[test]
fn carve_makes_a_spanning_tree() {
    for (w, h) in [(5, 5), (7, 9), (8, 6), (11, 4), (21, 21), (2, 2), (3, 1)] {
        let mut maze = Maze::new(w, h);
        let mut picker = Picker::fresh();
        maze.carve_with(&mut picker);
        check_perfect(&maze);
    }
}

#[test]
fn carve_with_a_seed_makes_a_spanning_tree() {
    for seed in 0..20u64 {
        let mut maze = Maze::new(15, 11);
        let mut picker = Picker::seeded(seed, 15 * 11);
        maze.carve_with(&mut picker);
        check_perfect(&maze);
    }
}

#[test]
fn carve_follows_the_tape() {
    let mut maze = Maze::new(5, 5);
    let mut picker = Picker::replay(vec![0, 1, 2, 3, 4, 5, 6, 7, 8, 9]);
    maze.carve_with(&mut picker);
    assert_eq!(rows_of(&maze), vec!["...#.", "##.#.", ".#.#.", ".#.#.", "....."]);
}

#[test]
fn carve_with_an_empty_tape_takes_the_first_option() {
    let mut maze = Maze::new(5, 5);
    let mut picker = Picker::replay(vec![]);
    maze.carve_with(&mut picker);
    assert_eq!(rows_of(&maze), vec![".....", "####.", ".....", ".####", "....."]);
}

#[test]
fn carve_follows_a_longer_tape() {
    let mut maze = Maze::new(7, 5);
    let mut picker = Picker::replay(vec![3, 1, 4, 1, 5, 9, 2, 6, 5, 3, 5, 8]);
    maze.carve_with(&mut picker);
    assert_eq!(
        rows_of(&maze),
        vec![".#.....", ".#.###.", ".#.#.#.", ".#.#.#.", "...#..."]
    );
}

#[test]
fn generate_with_a_tape_opens_the_sides() {
    let mut maze = Maze::new(5, 5);
    let mut picker = Picker::replay(vec![0, 1, 2, 3, 4, 5, 6, 7, 8, 9]);
    maze.generate_with(&mut picker);
    assert_eq!(rows_of(&maze), vec!["...#.", ".#.#.", ".#.#.", ".#.#.", "....."]);
}

#[test]
fn generate_opens_both_outer_columns() {
    for (w, h) in [(5, 5), (6, 7), (1, 4), (2, 3), (9, 1), (32, 16)] {
        let mut maze = Maze::new(w, h);
        maze.generate();
        assert_eq!(maze.width(), w);
        assert_eq!(maze.height(), h);
        for y in 0..h {
            assert!(!maze.is_wall(0, y));
            assert!(!maze.is_wall(w - 1, y));
        }
    }
}

#[test]
fn generate_changes_only_the_outer_columns_of_the_carve() {
    let mut carved = Maze::new(9, 7);
    carved.carve_with(&mut Picker::seeded(5, 63));
    let mut whole = Maze::new(9, 7);
    whole.generate_with(&mut Picker::seeded(5, 63));
    for x in 0..9 {
        for y in 0..7 {
            if x == 0 || x == 8 {
                assert!(!whole.is_wall(x, y));
            } else {
                assert_eq!(whole.is_wall(x, y), carved.is_wall(x, y));
            }
        }
    }
}

#[test]
fn single_cell_grid_is_opened() {
    let mut maze = Maze::new(1, 1);
    maze.generate();
    assert!(!maze.is_wall(0, 0));
}

#[test]
fn single_column_is_opened_whole() {
    let mut maze = Maze::new(1, 6);
    maze.carve_with(&mut Picker::fresh());
    assert_eq!(rows_of(&maze), vec![".", ".", ".", ".", ".", "#"]);
    maze.open_sides();
    assert_eq!(rows_of(&maze), vec![".", ".", ".", ".", ".", "."]);
}

#[test]
fn single_row_is_carved_along() {
    let mut maze = Maze::new(6, 1);
    maze.carve_with(&mut Picker::fresh());
    assert_eq!(rows_of(&maze), vec![".....#"]);
    maze.open_sides();
    assert_eq!(rows_of(&maze), vec!["......"]);
}

#[test]
fn same_seed_gives_the_same_maze() {
    for seed in [0u64, 1, 42, 1234567] {
        let mut first = Maze::new(21, 15);
        first.generate_with(&mut Picker::seeded(seed, 21 * 15));
        let mut second = Maze::new(21, 15);
        second.generate_with(&mut Picker::seeded(seed, 21 * 15));
        assert_eq!(rows_of(&first), rows_of(&second));
    }
}

#[test]
fn same_tape_gives_the_same_maze() {
    let tape: Vec<u32> = (0..200u32).map(|i| i.wrapping_mul(2654435761)).collect();
    let mut first = Maze::new(13, 13);
    first.generate_with(&mut Picker::replay(tape.clone()));
    let mut second = Maze::new(13, 13);
    second.generate_with(&mut Picker::replay(tape));
    assert_eq!(rows_of(&first), rows_of(&second));
}

#[test]
fn different_seeds_give_different_mazes() {
    let mut first = Maze::new(21, 21);
    first.generate_with(&mut Picker::seeded(1, 441));
    let mut second = Maze::new(21, 21);
    second.generate_with(&mut Picker::seeded(2, 441));
    assert_ne!(rows_of(&first), rows_of(&second));
}

#[test]
fn far_walls_lists_walled_rooms_in_order() {
    let mut maze = Maze::new(5, 5);
    assert_eq!(maze.far_walls((2, 2)), vec![(4, 2), (0, 2), (2, 4), (2, 0)]);
    maze.set_passage(0, 2);
    maze.set_passage(2, 4);
    assert_eq!(maze.far_walls((2, 2)), vec![(4, 2), (2, 0)]);
    assert_eq!(maze.far_walls((0, 0)), vec![(2, 0)]);
    maze.set_passage(2, 0);
    assert_eq!(maze.far_walls((0, 0)), Vec::<(usize, usize)>::new());
}

#[test]
fn open_sides_leaves_the_inside_alone() {
    let mut maze = Maze::new(4, 3);
    maze.set_passage(1, 1);
    maze.open_sides();
    assert_eq!(rows_of(&maze), vec![".##.", "..#.", ".##."]);
}
