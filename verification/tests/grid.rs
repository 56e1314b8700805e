use maze::grid::{Maze, MazeError};

#[test]
fn new_grid_is_all_walls() {
    let maze = Maze::new(4, 3);
    assert_eq!(maze.width(), 4);
    assert_eq!(maze.height(), 3);
    for x in 0..4 {
        for y in 0..3 {
            assert!(maze.is_wall(x, y));
        }
    }
}

#[test]
fn set_passage_opens_one_cell() {
    let mut maze = Maze::new(3, 3);
    maze.set_passage(1, 2);
    for x in 0..3 {
        for y in 0..3 {
            assert_eq!(maze.is_wall(x, y), (x, y) != (1, 2));
        }
    }
}

#[test]
fn try_new_accepts_positive_sides() {
    let maze = Maze::try_new(2, 5).unwrap();
    assert_eq!(maze.width(), 2);
    assert_eq!(maze.height(), 5);
    assert!(maze.is_wall(1, 4));
}

#[test]
fn try_new_refuses_zero_width() {
    assert!(matches!(Maze::try_new(0, 5), Err(MazeError::InvalidDimensions)));
}

#[test]
fn try_new_refuses_zero_height() {
    assert!(matches!(Maze::try_new(5, 0), Err(MazeError::InvalidDimensions)));
}

#[test]
fn try_new_refuses_overflowing_area() {
    assert!(matches!(Maze::try_new(usize::MAX, 2), Err(MazeError::InvalidDimensions)));
    assert!(matches!(Maze::try_new(usize::MAX / 2, 2), Err(MazeError::InvalidDimensions)));
}

#[test]
fn neighbor_steps_in_four_directions() {
    let maze = Maze::new(5, 5);
    assert_eq!(maze.neighbor((2, 2), 0, 1), Some((3, 2)));
    assert_eq!(maze.neighbor((2, 2), 1, 1), Some((1, 2)));
    assert_eq!(maze.neighbor((2, 2), 2, 1), Some((2, 3)));
    assert_eq!(maze.neighbor((2, 2), 3, 1), Some((2, 1)));
    assert_eq!(maze.neighbor((2, 2), 0, 2), Some((4, 2)));
    assert_eq!(maze.neighbor((2, 2), 3, 2), Some((2, 0)));
}

#[test]
fn neighbor_stops_at_the_border() {
    let maze = Maze::new(5, 5);
    assert_eq!(maze.neighbor((0, 0), 1, 1), None);
    assert_eq!(maze.neighbor((0, 0), 3, 1), None);
    assert_eq!(maze.neighbor((4, 4), 0, 1), None);
    assert_eq!(maze.neighbor((4, 4), 2, 1), None);
    assert_eq!(maze.neighbor((3, 1), 0, 2), None);
    assert_eq!(maze.neighbor((1, 3), 1, 2), None);
}

#[test]
fn is_blank_holds_until_a_cell_is_opened() {
    let mut maze = Maze::new(3, 2);
    assert!(maze.is_blank());
    maze.set_passage(2, 1);
    assert!(!maze.is_blank());
}

#[test]
fn is_blank_fails_after_generation() {
    let mut maze = Maze::new(5, 5);
    maze.generate();
    assert!(!maze.is_blank());
}
