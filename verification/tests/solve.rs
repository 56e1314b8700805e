use maze::grid::Maze;
use maze::picker::Picker;

fn from_rows(rows: &[&str]) -> Maze {
    let height = rows.len();
    let width = rows[0].len();
    let mut maze = Maze::new(width, height);
    for (y, row) in rows.iter().enumerate() {
        for (x, cell) in row.chars().enumerate() {
            if cell == '.' {
                maze.set_passage(x, y);
            }
        }
    }
    maze
}

fn breadth_first_distance(maze: &Maze) -> Option<usize> {
    let (w, h) = (maze.width(), maze.height());
    let mut distance = vec![vec![usize::MAX; h]; w];
    let mut queue = std::collections::VecDeque::new();
    if maze.is_wall(0, 0) {
        return None;
    }
    distance[0][0] = 0;
    queue.push_back((0usize, 0usize));
    while let Some((x, y)) = queue.pop_front() {
        if (x, y) == (w - 1, h - 1) {
            return Some(distance[x][y]);
        }
        let mut next = Vec::new();
        if x + 1 < w {
            next.push((x + 1, y));
        }
        if x > 0 {
            next.push((x - 1, y));
        }
        if y + 1 < h {
            next.push((x, y + 1));
        }
        if y > 0 {
            next.push((x, y - 1));
        }
        for (nx, ny) in next {
            if !maze.is_wall(nx, ny) && distance[nx][ny] == usize::MAX {
                distance[nx][ny] = distance[x][y] + 1;
                queue.push_back((nx, ny));
            }
        }
    }
    None
}

fn check_route(maze: &Maze, path: &[(usize, usize)]) {
    assert_eq!(path[0], (0, 0));
    assert_eq!(path[path.len() - 1], (maze.width() - 1, maze.height() - 1));
    for &(x, y) in path {
        assert!(!maze.is_wall(x, y));
    }
    for pair in path.windows(2) {
        let dx = pair[0].0.abs_diff(pair[1].0);
        let dy = pair[0].1.abs_diff(pair[1].1);
        assert_eq!(dx + dy, 1);
    }
}

#[test]
fn heuristic_is_the_manhattan_distance() {
    let maze = Maze::new(10, 8);
    assert_eq!(maze.heuristic((0, 0), (9, 7)), 16);
    assert_eq!(maze.heuristic((9, 7), (0, 0)), 16);
    assert_eq!(maze.heuristic((3, 5), (7, 2)), 7);
    assert_eq!(maze.heuristic((7, 2), (3, 5)), 7);
    assert_eq!(maze.heuristic((4, 4), (4, 4)), 0);
}

#[test]
fn solve_finds_the_only_route() {
    let maze = from_rows(&["..#", "#.#", "#.."]);
    assert_eq!(
        maze.solve(),
        Some(vec![(0, 0), (1, 0), (1, 1), (1, 2), (2, 2)])
    );
}

#[test]
fn solve_takes_the_shorter_of_two_routes() {
    let maze = from_rows(&[".....", ".###.", ".#...", ".#.#.", "...#."]);
    let path = maze.solve().unwrap();
    assert_eq!(path.len(), 9);
    check_route(&maze, &path);
    assert_eq!(
        path,
        vec![(0, 0), (1, 0), (2, 0), (3, 0), (4, 0), (4, 1), (4, 2), (4, 3), (4, 4)]
    );
}

#[test]
fn solve_prefers_the_detour_free_route() {
    let maze = from_rows(&[
        ".######",
        ".......",
        ".#####.",
        ".#...#.",
        ".#.#.#.",
        "...#...",
        "######.",
    ]);
    let path = maze.solve().unwrap();
    assert_eq!(path.len() - 1, breadth_first_distance(&maze).unwrap());
    assert_eq!(path.len(), 13);
    check_route(&maze, &path);
}

#[test]
fn solve_reports_no_route_behind_a_barrier() {
    let maze = from_rows(&["..#..", "..#..", "..#..", "..#..", "..#.."]);
    assert_eq!(maze.solve(), None);
}

#[test]
fn solve_reports_no_route_across_a_horizontal_barrier() {
    let maze = from_rows(&["....", "####", "...."]);
    assert_eq!(maze.solve(), None);
}

#[test]
fn solve_reports_no_route_into_a_walled_goal() {
    let maze = from_rows(&["...", "...", "..#"]);
    assert_eq!(maze.solve(), None);
}

#[test]
fn solve_reports_no_route_in_a_grid_of_walls() {
    let maze = Maze::new(4, 4);
    assert_eq!(maze.solve(), None);
}

#[test]
fn solve_on_a_single_cell_stays_put() {
    let mut maze = Maze::new(1, 1);
    assert_eq!(maze.solve(), None);
    maze.set_passage(0, 0);
    assert_eq!(maze.solve(), Some(vec![(0, 0)]));
}

#[test]
fn solve_reports_no_route_from_a_walled_start() {
    let maze = from_rows(&["#.", ".."]);
    assert_eq!(maze.solve(), None);
}

#[test]
fn solve_reports_no_route_from_a_walled_start_in_an_open_field() {
    let maze = from_rows(&["#...", "....", "...."]);
    assert_eq!(maze.solve(), None);
}

#[test]
fn solve_crosses_an_open_field_in_the_fewest_steps() {
    let mut maze = Maze::new(6, 4);
    for x in 0..6 {
        for y in 0..4 {
            maze.set_passage(x, y);
        }
    }
    let path = maze.solve().unwrap();
    assert_eq!(path.len(), 9);
    check_route(&maze, &path);
    assert_eq!(
        path,
        vec![(0, 0), (1, 0), (2, 0), (3, 0), (4, 0), (5, 0), (5, 1), (5, 2), (5, 3)]
    );
}

#[test]
fn solve_takes_the_first_of_equal_routes() {
    let maze = from_rows(&["...", ".#.", "..."]);
    assert_eq!(
        maze.solve(),
        Some(vec![(0, 0), (1, 0), (2, 0), (2, 1), (2, 2)])
    );
}

#[test]
fn solve_is_optimal_on_generated_mazes() {
    for seed in 0..30u64 {
        let mut maze = Maze::new(17, 13);
        maze.generate_with(&mut Picker::seeded(seed, 17 * 13));
        let path = maze.solve().unwrap();
        check_route(&maze, &path);
        assert_eq!(path.len() - 1, breadth_first_distance(&maze).unwrap());
    }
}

#[test]
fn solve_is_optimal_on_even_sized_mazes() {
    for seed in 0..30u64 {
        let mut maze = Maze::new(12, 10);
        maze.generate_with(&mut Picker::seeded(seed, 120));
        match maze.solve() {
            Some(path) => {
                check_route(&maze, &path);
                assert_eq!(Some(path.len() - 1), breadth_first_distance(&maze));
            },
            None => assert_eq!(breadth_first_distance(&maze), None),
        }
    }
}

#[test]
fn solve_is_optimal_on_random_fields() {
    let mut picker = Picker::seeded(7, 4000);
    let coin = vec![(0, 0), (1, 1), (2, 2)];
    for _ in 0..40 {
        let mut maze = Maze::new(9, 8);
        for x in 0..9 {
            for y in 0..8 {
                if picker.pick(&coin) != (0, 0) {
                    maze.set_passage(x, y);
                }
            }
        }
        match maze.solve() {
            Some(path) => {
                assert_eq!(Some(path.len() - 1), breadth_first_distance(&maze));
                check_route(&maze, &path);
            },
            None => assert_eq!(breadth_first_distance(&maze), None),
        }
    }
}

#[test]
fn solve_a_maze_made_from_a_tape() {
    let mut maze = Maze::new(5, 5);
    maze.generate_with(&mut Picker::replay(vec![0, 1, 2, 3, 4, 5, 6, 7, 8, 9]));
    assert_eq!(
        maze.solve(),
        Some(vec![(0, 0), (1, 0), (2, 0), (2, 1), (2, 2), (2, 3), (2, 4), (3, 4), (4, 4)])
    );
}

#[test]
fn solve_a_wider_maze_made_from_a_tape() {
    let mut maze = Maze::new(7, 5);
    maze.generate_with(&mut Picker::replay(vec![3, 1, 4, 1, 5, 9, 2, 6, 5, 3, 5, 8]));
    assert_eq!(
        maze.solve(),
        Some(vec![
            (0, 0), (0, 1), (0, 2), (0, 3), (0, 4), (1, 4), (2, 4), (2, 3), (2, 2), (2, 1),
            (2, 0), (3, 0), (4, 0), (5, 0), (6, 0), (6, 1), (6, 2), (6, 3), (6, 4),
        ])
    );
}

#[test]
fn solve_twice_gives_the_same_route() {
    let mut maze = Maze::new(15, 15);
    maze.generate_with(&mut Picker::seeded(3, 225));
    assert_eq!(maze.solve(), maze.solve());
}
