//! The maze grid: a fixed-size matrix of cells, each a wall or a passage.

use vstd::prelude::*;

verus! {

/// Whether a grid of these dimensions can be built and searched: both sides
/// are positive, and every score the search may form fits a `usize`.
pub open spec fn dimensions_ok(width: int, height: int) -> bool {
    &&& width >= 1
    &&& height >= 1
    &&& width * height + width + height <= usize::MAX
}

/// A grid is a sequence of columns; `g[x][y]` is `true` where the cell in
/// column `x` and row `y` is a wall.  A valid grid is rectangular, all its
/// columns having the same length, and of dimensions that can be searched.
pub open spec fn valid_grid(g: Seq<Seq<bool>>) -> bool {
    &&& g.len() >= 1
    &&& forall|x: int| 0 <= x < g.len() ==> (#[trigger] g[x]).len() == g[0].len()
    &&& dimensions_ok(g.len() as int, g[0].len() as int)
}

/// Number of columns.
pub open spec fn width_of(g: Seq<Seq<bool>>) -> nat {
    g.len()
}

/// Number of rows.
pub open spec fn height_of(g: Seq<Seq<bool>>) -> nat {
    g[0].len()
}

/// The cell lies inside the grid.
pub open spec fn in_grid(g: Seq<Seq<bool>>, c: (usize, usize)) -> bool {
    c.0 < width_of(g) && c.1 < height_of(g)
}

/// The cell lies inside the grid and is a wall.
pub open spec fn is_wall_at(g: Seq<Seq<bool>>, c: (usize, usize)) -> bool {
    in_grid(g, c) && g[c.0 as int][c.1 as int]
}

/// The cell lies inside the grid and is a passage.
pub open spec fn is_open(g: Seq<Seq<bool>>, c: (usize, usize)) -> bool {
    in_grid(g, c) && !g[c.0 as int][c.1 as int]
}

/// The grid of the given size in which every cell is a wall.
pub open spec fn all_walls(width: nat, height: nat) -> Seq<Seq<bool>> {
    Seq::new(width, |x: int| Seq::new(height, |y: int| true))
}

/// The grid `g` with cell `c` turned into a passage.
pub open spec fn opened(g: Seq<Seq<bool>>, c: (usize, usize)) -> Seq<Seq<bool>> {
    g.update(c.0 as int, g[c.0 as int].update(c.1 as int, false))
}

/// The position `stride` cells away from `c` in direction `d`: 0 is right,
/// 1 left, 2 down, 3 up.  The position may lie outside any grid.
pub open spec fn shifted(c: (usize, usize), d: int, stride: int) -> (int, int) {
    if d == 0 {
        (c.0 + stride, c.1 as int)
    } else if d == 1 {
        (c.0 - stride, c.1 as int)
    } else if d == 2 {
        (c.0 as int, c.1 + stride)
    } else {
        (c.0 as int, c.1 - stride)
    }
}

/// The position lies inside the grid.
pub open spec fn lies_in(g: Seq<Seq<bool>>, p: (int, int)) -> bool {
    0 <= p.0 < width_of(g) && 0 <= p.1 < height_of(g)
}

/// The cell at a position inside the grid.
pub open spec fn cell_at(p: (int, int)) -> (usize, usize) {
    (p.0 as usize, p.1 as usize)
}

/// Why a grid could not be built.
#[derive(Debug, Clone, Copy, PartialEq, Eq)]
pub enum MazeError {
    /// A side is zero, or the grid is too large to be searched.
    InvalidDimensions,
}

/// A valid_grid maze.  Cells are addressed as `(x, y)` with `x` the column
/// and `y` the row; the origin is the top-left corner.
pub struct Maze {
    width: usize,
    height: usize,
    cells: Vec<Vec<bool>>,
}

impl View for Maze {
    type V = Seq<Seq<bool>>;

    closed spec fn view(&self) -> Seq<Seq<bool>> {
        Seq::new(self.cells@.len(), |x: int| self.cells@[x]@)
    }
}

impl Maze {
    /// The stored dimensions agree with the cell matrix.
    pub closed spec fn consistent(&self) -> bool {
        &&& self.cells@.len() == self.width
        &&& forall|x: int| 0 <= x < self.cells@.len() ==> (#[trigger] self.cells@[x])@.len() == self.height
    }

    /// The invariant of every maze handed out by this library.
    pub open spec fn wf(&self) -> bool {
        self.consistent() && valid_grid(self@)
    }

    /// A maze of the given size with every cell a wall.
    pub fn new(width: usize, height: usize) -> (maze: Maze)
        requires
            dimensions_ok(width as int, height as int),
        ensures
            maze.wf(),
            maze@ == all_walls(width as nat, height as nat),
    {
        let mut cells: Vec<Vec<bool>> = Vec::new();
        let mut x: usize = 0;
        while x < width
            invariant
                x <= width,
                cells@.len() == x,
                forall|i: int| 0 <= i < x ==> (#[trigger] cells@[i])@ == Seq::new(height as nat, |y: int| true),
            decreases width - x,
        {
            let mut column: Vec<bool> = Vec::new();
            let mut y: usize = 0;
            while y < height
                invariant
                    y <= height,
                    column@.len() == y,
                    forall|j: int| 0 <= j < y ==> #[trigger] column@[j],
                decreases height - y,
            {
                column.push(true);
                y += 1;
            }
            assert(column@ =~= Seq::new(height as nat, |y: int| true));
            cells.push(column);
            x += 1;
        }
        let maze = Maze { width, height, cells };
        assert(maze@ =~= all_walls(width as nat, height as nat));
        maze
    }

    /// As [`Maze::new`], but refuses dimensions that `new` does not admit.
    pub fn try_new(width: usize, height: usize) -> (result: Result<Maze, MazeError>)
        ensures
            match result {
                Ok(maze) => dimensions_ok(width as int, height as int) && maze.wf() && maze@
                    == all_walls(width as nat, height as nat),
                Err(e) => !dimensions_ok(width as int, height as int) && e
                    == MazeError::InvalidDimensions,
            },
    {
        if width == 0 || height == 0 {
            return Err(MazeError::InvalidDimensions);
        }
        match width.checked_mul(height) {
            None => {
                assert(width * height > usize::MAX);
                Err(MazeError::InvalidDimensions)
            },
            Some(area) => match area.checked_add(width) {
                None => Err(MazeError::InvalidDimensions),
                Some(partial) => match partial.checked_add(height) {
                    None => Err(MazeError::InvalidDimensions),
                    Some(_) => Ok(Maze::new(width, height)),
                },
            },
        }
    }

    /// Whether every cell is still a wall.
    pub fn is_blank(&self) -> (blank: bool)
        requires
            self.wf(),
        ensures
            blank == (self@ == all_walls(width_of(self@), height_of(self@))),
    {
        let mut x: usize = 0;
        while x < self.width
            invariant
                x <= self.width,
                self.wf(),
                forall|i: int, j: int|
                    0 <= i < x && 0 <= j < self.height ==> #[trigger] self@[i][j],
            decreases self.width - x,
        {
            let mut y: usize = 0;
            while y < self.height
                invariant
                    x < self.width,
                    y <= self.height,
                    self.wf(),
                    forall|i: int, j: int|
                        0 <= i < x && 0 <= j < self.height ==> #[trigger] self@[i][j],
                    forall|j: int| 0 <= j < y ==> #[trigger] self@[x as int][j],
                decreases self.height - y,
            {
                if !self.cells[x][y] {
                    assert(!self@[x as int][y as int]);
                    assert(all_walls(width_of(self@), height_of(self@))[x as int][y as int]);
                    return false;
                }
                y += 1;
            }
            x += 1;
        }
        assert(self@ =~~= all_walls(width_of(self@), height_of(self@))) by {
            assert forall|i: int| 0 <= i < self@.len() implies (#[trigger] self@[i]).len()
                == height_of(self@) by {}
        }
        true
    }

    /// Number of columns.
    pub fn width(&self) -> (w: usize)
        requires
            self.wf(),
        ensures
            w == width_of(self@),
    {
        self.width
    }

    /// Number of rows.
    pub fn height(&self) -> (h: usize)
        requires
            self.wf(),
        ensures
            h == height_of(self@),
    {
        self.height
    }

    /// The cell `stride` cells away from `c` in direction `d` (0 right, 1 left,
    /// 2 down, 3 up), if it lies inside the grid.
    pub fn neighbor(&self, c: (usize, usize), d: usize, stride: usize) -> (n: Option<(usize, usize)>)
        requires
            self.wf(),
            in_grid(self@, c),
            d < 4,
            stride >= 1,
        ensures
            match n {
                Some(n) => lies_in(self@, shifted(c, d as int, stride as int)) && n == cell_at(
                    shifted(c, d as int, stride as int),
                ),
                None => !lies_in(self@, shifted(c, d as int, stride as int)),
            },
    {
        if d == 0 {
            if self.width - c.0 > stride {
                Some((c.0 + stride, c.1))
            } else {
                None
            }
        } else if d == 1 {
            if c.0 >= stride {
                Some((c.0 - stride, c.1))
            } else {
                None
            }
        } else if d == 2 {
            if self.height - c.1 > stride {
                Some((c.0, c.1 + stride))
            } else {
                None
            }
        } else {
            if c.1 >= stride {
                Some((c.0, c.1 - stride))
            } else {
                None
            }
        }
    }

    /// Whether the cell at `(x, y)` is a wall.
    pub fn is_wall(&self, x: usize, y: usize) -> (wall: bool)
        requires
            self.wf(),
            in_grid(self@, (x, y)),
        ensures
            wall == is_wall_at(self@, (x, y)),
            wall == !is_open(self@, (x, y)),
    {
        self.cells[x][y]
    }

    /// Turns the cell at `(x, y)` into a passage.
    pub fn set_passage(&mut self, x: usize, y: usize)
        requires
            old(self).wf(),
            in_grid(old(self)@, (x, y)),
        ensures
            final(self).wf(),
            final(self)@ == opened(old(self)@, (x, y)),
    {
        self.cells[x][y] = false;
        assert(self@ =~= opened(old(self)@, (x, y)));
    }
}

} // verus!
