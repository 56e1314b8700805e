use maze::grid::Maze;
use maze::picker::Picker;

const BLACK: (u8, u8, u8) = (0, 0, 0);
const WHITE: (u8, u8, u8) = (255, 255, 255);
const RED: (u8, u8, u8) = (255, 0, 0);

fn from_rows(rows: &[&str]) -> Maze {
    let height = rows.len();
    let width = rows[0].len();
    let mut maze = Maze::new(width, height);
    for (y, row) in rows.iter().enumerate() {
        for (x, cell) in row.chars().enumerate() {
            if cell == '.' {
                maze.set_passage(x, y);
            }
        }
    }
    maze
}

fn rows_of(maze: &Maze) -> Vec<String> {
    let mut rows = Vec::new();
    for y in 0..maze.height() {
        let mut row = String::new();
        for x in 0..maze.width() {
            row.push(if maze.is_wall(x, y) { '#' } else { '.' });
        }
        rows.push(row);
    }
    rows
}

#[test]
fn render_paints_walls_black_and_passages_white() {
    let maze = from_rows(&["..#", "#.#", "#.."]);
    let canvas = maze.render(None);
    assert_eq!(canvas.width(), 3);
    assert_eq!(canvas.height(), 3);
    for x in 0..3 {
        for y in 0..3 {
            let expected = if maze.is_wall(x, y) { BLACK } else { WHITE };
            assert_eq!(canvas.pixel(x, y), Some(expected));
        }
    }
}

#[test]
fn render_paints_the_route_red() {
    let maze = from_rows(&["..#", "#.#", "#.."]);
    let route = vec![(0, 0), (1, 0), (1, 1), (1, 2), (2, 2)];
    let canvas = maze.render(Some(&route));
    assert_eq!(canvas.pixel(0, 0), Some(RED));
    assert_eq!(canvas.pixel(1, 0), Some(RED));
    assert_eq!(canvas.pixel(2, 0), Some(BLACK));
    assert_eq!(canvas.pixel(0, 1), Some(BLACK));
    assert_eq!(canvas.pixel(1, 1), Some(RED));
    assert_eq!(canvas.pixel(2, 1), Some(BLACK));
    assert_eq!(canvas.pixel(0, 2), Some(BLACK));
    assert_eq!(canvas.pixel(1, 2), Some(RED));
    assert_eq!(canvas.pixel(2, 2), Some(RED));
}

#[test]
fn render_paints_the_route_over_walls() {
    let maze = Maze::new(2, 2);
    let route = vec![(1, 0), (1, 0)];
    let canvas = maze.render(Some(&route));
    assert_eq!(canvas.pixel(0, 0), Some(BLACK));
    assert_eq!(canvas.pixel(1, 0), Some(RED));
    assert_eq!(canvas.pixel(0, 1), Some(BLACK));
    assert_eq!(canvas.pixel(1, 1), Some(BLACK));
}

#[test]
fn render_with_an_empty_route_paints_no_red() {
    let maze = from_rows(&[".#", ".."]);
    let route: Vec<(usize, usize)> = Vec::new();
    let canvas = maze.render(Some(&route));
    assert_eq!(canvas.pixel(0, 0), Some(WHITE));
    assert_eq!(canvas.pixel(1, 0), Some(BLACK));
    assert_eq!(canvas.pixel(0, 1), Some(WHITE));
    assert_eq!(canvas.pixel(1, 1), Some(WHITE));
}

#[test]
fn pixel_outside_the_image_is_none() {
    let maze = Maze::new(4, 2);
    let canvas = maze.render(None);
    assert_eq!(canvas.pixel(4, 0), None);
    assert_eq!(canvas.pixel(0, 2), None);
    assert_eq!(canvas.pixel(3, 1), Some(BLACK));
}

#[test]
fn image_has_the_size_of_the_grid() {
    let maze = Maze::new(7, 3);
    let canvas = maze.render(None);
    assert_eq!(canvas.width(), 7);
    assert_eq!(canvas.height(), 3);
}

#[test]
fn into_bytes_runs_row_by_row() {
    let maze = from_rows(&[".#", "#."]);
    let route = vec![(1, 1)];
    let bytes = maze.render(Some(&route)).into_bytes();
    assert_eq!(
        bytes,
        vec![255, 255, 255, 0, 0, 0, 0, 0, 0, 255, 0, 0]
    );
}

#[test]
fn into_bytes_of_a_wide_image() {
    let maze = from_rows(&["..#"]);
    let bytes = maze.render(None).into_bytes();
    assert_eq!(bytes, vec![255, 255, 255, 255, 255, 255, 0, 0, 0]);
}

#[test]
fn bytes_make_an_image_of_the_same_pixels() {
    let maze = from_rows(&["..#", "#.#", "#.."]);
    let route = vec![(0, 0), (1, 0)];
    let bytes = maze.render(Some(&route)).into_bytes();
    let image = image::RgbImage::from_raw(3, 3, bytes).unwrap();
    assert_eq!(image.get_pixel(0, 0).0, [255, 0, 0]);
    assert_eq!(image.get_pixel(1, 0).0, [255, 0, 0]);
    assert_eq!(image.get_pixel(2, 0).0, [0, 0, 0]);
    assert_eq!(image.get_pixel(1, 1).0, [255, 255, 255]);
    assert_eq!(image.get_pixel(0, 2).0, [0, 0, 0]);
    assert_eq!(image.get_pixel(2, 2).0, [255, 255, 255]);
}

#[test]
fn renderable_accepts_a_route_in_the_grid() {
    let maze = Maze::new(3, 3);
    let route = vec![(0, 0), (2, 2)];
    assert!(maze.renderable(Some(&route)));
    assert!(maze.renderable(None));
}

#[test]
fn renderable_refuses_a_route_outside_the_grid() {
    let maze = Maze::new(3, 3);
    assert!(!maze.renderable(Some(&[(0, 0), (3, 0)])));
    assert!(!maze.renderable(Some(&[(0, 3)])));
}

#[test]
fn seeded_maze_solved_and_rendered() {
    let mut maze = Maze::new(5, 5);
    maze.generate_with(&mut Picker::seeded(2024, 25));
    assert_eq!(rows_of(&maze), vec![".#...", ".#.#.", "...#.", ".###.", "....."]);
    let path = maze.solve().unwrap();
    assert_eq!(path.len(), 9);
    assert_eq!(
        path,
        vec![(0, 0), (0, 1), (0, 2), (0, 3), (0, 4), (1, 4), (2, 4), (3, 4), (4, 4)]
    );
    let canvas = maze.render(Some(&path));
    assert_ne!(canvas.pixel(0, 0), Some(BLACK));
    assert_ne!(canvas.pixel(4, 4), Some(BLACK));
    assert_eq!(canvas.pixel(0, 0), Some(RED));
    assert_eq!(canvas.pixel(4, 4), Some(RED));
    let plain = maze.render(None);
    assert_eq!(plain.pixel(0, 0), Some(WHITE));
    assert_eq!(plain.pixel(4, 4), Some(WHITE));
}
