//! Rendering a maze, and a route through it, to a raster image: one pixel
//! for each cell.

use vstd::prelude::*;
use crate::grid::{height_of, in_grid, valid_grid, width_of, Maze};

verus! {

/// A sheet of pixels: an `image::RgbImage`, kept out of the verifier's sight.
#[verifier::external_body]
pub struct Sheet {
    image: image::RgbImage,
}

/// What a sheet holds: its columns from left to right, each a sequence of
/// pixels from top to bottom, each pixel its red, green and blue channel.
pub uninterp spec fn pixels_of(sheet: Sheet) -> Seq<Seq<(u8, u8, u8)>>;

/// The colour of a wall.
pub open spec fn black() -> (u8, u8, u8) {
    (0u8, 0u8, 0u8)
}

/// The colour of a passage.
pub open spec fn white() -> (u8, u8, u8) {
    (255u8, 255u8, 255u8)
}

/// The colour of a cell of the route.
pub open spec fn red() -> (u8, u8, u8) {
    (255u8, 0u8, 0u8)
}

/// One channel of a pixel: 0 red, 1 green, 2 blue.
pub open spec fn channel(pixel: (u8, u8, u8), k: int) -> u8 {
    if k == 0 {
        pixel.0
    } else if k == 1 {
        pixel.1
    } else {
        pixel.2
    }
}

/// The bytes of an image, row by row from the top, each row from the left,
/// three bytes to a pixel.
pub open spec fn row_major(pixels: Seq<Seq<(u8, u8, u8)>>) -> Seq<u8> {
    let width = pixels.len() as int;
    let height = if width > 0 {
        pixels[0].len() as int
    } else {
        0
    };
    Seq::new(
        (3 * width * height) as nat,
        |i: int| channel(pixels[(i / 3) % width][(i / 3) / width], i % 3),
    )
}

/// Calls `image::ImageBuffer::new`, which allocates a buffer of zeroes for
/// the given size: every pixel of the new image is black.  It panics where
/// the buffer, three bytes to a pixel, is larger than a vector can be.
#[verifier::external_body]
fn blank_sheet(width: u32, height: u32) -> (sheet: Sheet)
    requires
        3 * width * height <= isize::MAX,
    ensures
        pixels_of(sheet) == Seq::new(
            width as nat,
            |x: int| Seq::new(height as nat, |y: int| black()),
        ),
{
    Sheet { image: image::RgbImage::new(width, height) }
}

/// Calls `image::ImageBuffer::put_pixel`, which overwrites the pixel at
/// `(x, y)` and no other.  It panics where `(x, y)` lies outside the image.
#[verifier::external_body]
fn paint(sheet: &mut Sheet, x: u32, y: u32, color: (u8, u8, u8))
    requires
        x < pixels_of(*old(sheet)).len(),
        y < pixels_of(*old(sheet))[x as int].len(),
    ensures
        pixels_of(*final(sheet)) == pixels_of(*old(sheet)).update(
            x as int,
            pixels_of(*old(sheet))[x as int].update(y as int, color),
        ),
{
    sheet.image.put_pixel(x, y, image::Rgb([color.0, color.1, color.2]))
}

/// Calls `image::ImageBuffer::get_pixel`, which hands out the pixel at
/// `(x, y)`.  It panics where `(x, y)` lies outside the image.
#[verifier::external_body]
fn read_pixel(sheet: &Sheet, x: u32, y: u32) -> (color: (u8, u8, u8))
    requires
        x < pixels_of(*sheet).len(),
        y < pixels_of(*sheet)[x as int].len(),
    ensures
        color == pixels_of(*sheet)[x as int][y as int],
{
    let pixel = sheet.image.get_pixel(x, y);
    (pixel.0[0], pixel.0[1], pixel.0[2])
}

/// Calls `image::ImageBuffer::into_raw`, which hands out the image's buffer:
/// the channels of the pixel at `(x, y)` stand at three times `y * width + x`.
#[verifier::external_body]
fn raw_bytes(sheet: Sheet) -> (bytes: Vec<u8>)
    ensures
        bytes@ == row_major(pixels_of(sheet)),
{
    sheet.image.into_raw()
}

/// The colour of the cell at `(x, y)` without a route: black for a wall,
/// white for a passage.
pub open spec fn ground_color(g: Seq<Seq<bool>>, x: int, y: int) -> (u8, u8, u8) {
    if g[x][y] {
        black()
    } else {
        white()
    }
}

/// The colour of the cell at `(x, y)`: red on the route, else black for a
/// wall and white for a passage.
pub open spec fn cell_color(g: Seq<Seq<bool>>, route: Seq<(usize, usize)>, x: int, y: int) -> (
    u8,
    u8,
    u8,
) {
    if route.contains((x as usize, y as usize)) {
        red()
    } else {
        ground_color(g, x, y)
    }
}

/// The image of a maze with a route drawn over it.  Without a route, the
/// route is empty.
pub open spec fn rendering(g: Seq<Seq<bool>>, route: Seq<(usize, usize)>) -> Seq<Seq<(u8, u8, u8)>> {
    Seq::new(width_of(g), |x: int| Seq::new(height_of(g), |y: int| cell_color(g, route, x, y)))
}

/// The cells of a route that may be absent.
pub open spec fn route_cells(solution: Option<&[(usize, usize)]>) -> Seq<(usize, usize)> {
    match solution {
        Some(route) => route@,
        None => Seq::empty(),
    }
}

/// An image of the maze can be made and the route drawn into it: each side
/// fits the image's `u32` coordinates, the pixel buffer is no larger than a
/// vector can be, and every cell of the route lies in the grid.
pub open spec fn can_render(g: Seq<Seq<bool>>, route: Seq<(usize, usize)>) -> bool {
    &&& width_of(g) <= u32::MAX
    &&& height_of(g) <= u32::MAX
    &&& 3 * width_of(g) * height_of(g) <= isize::MAX
    &&& forall|i: int| 0 <= i < route.len() ==> in_grid(g, #[trigger] route[i])
}

impl Maze {
    /// Renders the maze, one pixel for each cell: walls black, passages
    /// white, and the cells of the route, if one is given, red.
    pub fn render(&self, solution: Option<&[(usize, usize)]>) -> (canvas: Canvas)
        requires
            self.wf(),
            can_render(self@, route_cells(solution)),
        ensures
            canvas.wf(),
            canvas@ == rendering(self@, route_cells(solution)),
    {
        let ghost g = self@;
        let width = self.width();
        let height = self.height();
        let mut sheet = blank_sheet(width as u32, height as u32);
        let mut x: usize = 0;
        while x < width
            invariant
                x <= width,
                self.wf(),
                g == self@,
                width == width_of(g),
                height == height_of(g),
                width <= u32::MAX,
                height <= u32::MAX,
                pixels_of(sheet).len() == width,
                forall|i: int| 0 <= i < width ==> (#[trigger] pixels_of(sheet)[i]).len() == height,
                forall|i: int, j: int|
                    0 <= i < x && 0 <= j < height ==> (#[trigger] pixels_of(sheet)[i][j])
                        == ground_color(g, i, j),
            decreases width - x,
        {
            let mut y: usize = 0;
            while y < height
                invariant
                    x < width,
                    y <= height,
                    self.wf(),
                    g == self@,
                    width == width_of(g),
                    height == height_of(g),
                    width <= u32::MAX,
                    height <= u32::MAX,
                    pixels_of(sheet).len() == width,
                    forall|i: int|
                        0 <= i < width ==> (#[trigger] pixels_of(sheet)[i]).len() == height,
                    forall|i: int, j: int|
                        0 <= i < x && 0 <= j < height ==> (#[trigger] pixels_of(sheet)[i][j])
                            == ground_color(g, i, j),
                    forall|j: int|
                        0 <= j < y ==> (#[trigger] pixels_of(sheet)[x as int][j]) == ground_color(
                            g,
                            x as int,
                            j,
                        ),
                decreases height - y,
            {
                if self.is_wall(x, y) {
                    paint(&mut sheet, x as u32, y as u32, (0, 0, 0));
                } else {
                    paint(&mut sheet, x as u32, y as u32, (255, 255, 255));
                }
                y += 1;
            }
            x += 1;
        }
        match solution {
            Some(route) => {
                let mut k: usize = 0;
                while k < route.len()
                    invariant
                        k <= route@.len(),
                        valid_grid(g),
                        width == width_of(g),
                        height == height_of(g),
                        width <= u32::MAX,
                        height <= u32::MAX,
                        forall|i: int| 0 <= i < route@.len() ==> in_grid(g, #[trigger] route@[i]),
                        pixels_of(sheet).len() == width,
                        forall|i: int|
                            0 <= i < width ==> (#[trigger] pixels_of(sheet)[i]).len() == height,
                        forall|i: int, j: int|
                            0 <= i < width && 0 <= j < height ==> (#[trigger] pixels_of(sheet)[i][j])
                                == cell_color(g, route@.take(k as int), i, j),
                    decreases route@.len() - k,
                {
                    let cell = route[k];
                    let ghost earlier = pixels_of(sheet);
                    assert(in_grid(g, route@[k as int]));
                    paint(&mut sheet, cell.0 as u32, cell.1 as u32, (255, 0, 0));
                    proof {
                        let done = route@.take(k as int);
                        let more = route@.take(k + 1);
                        assert(more =~= done.push(cell));
                        assert forall|i: int, j: int|
                            0 <= i < width && 0 <= j < height implies (#[trigger] pixels_of(sheet)[i][j])
                            == cell_color(g, more, i, j) by {
                            let c = (i as usize, j as usize);
                            if c == cell {
                                assert(more[k as int] == c);
                            } else if done.contains(c) {
                                let t = choose|t: int| 0 <= t < done.len() && done[t] == c;
                                assert(more[t] == c);
                            } else {
                                assert(earlier[i][j] == cell_color(g, done, i, j));
                                if more.contains(c) {
                                    let t = choose|t: int| 0 <= t < more.len() && more[t] == c;
                                    assert(done[t] == c);
                                }
                            }
                        }
                    }
                    k += 1;
                }
                proof {
                    assert(route@.take(route@.len() as int) =~= route@);
                }
            },
            None => {
                proof {
                    assert forall|i: int, j: int|
                        0 <= i < width && 0 <= j < height implies (#[trigger] pixels_of(sheet)[i][j])
                        == cell_color(g, Seq::empty(), i, j) by {}
                }
            },
        }
        proof {
            assert(pixels_of(sheet) =~~= rendering(g, route_cells(solution)));
        }
        Canvas { width, height, sheet }
    }

    /// Whether [`Maze::render`] can draw this maze with this route.
    pub fn renderable(&self, solution: Option<&[(usize, usize)]>) -> (yes: bool)
        requires
            self.wf(),
        ensures
            yes == can_render(self@, route_cells(solution)),
    {
        let width = self.width();
        let height = self.height();
        if width > u32::MAX as usize || height > u32::MAX as usize {
            return false;
        }
        let fits = match width.checked_mul(height) {
            Some(area) => match area.checked_mul(3) {
                Some(bytes) => bytes <= isize::MAX as usize,
                None => false,
            },
            None => false,
        };
        if !fits {
            assert(3 * width * height > isize::MAX) by (nonlinear_arith)
                requires
                    width * height > usize::MAX || 3 * (width * height) > isize::MAX,
                    width >= 0,
                    height >= 0,
                    isize::MAX <= usize::MAX,
            ;
            return false;
        }
        assert(3 * width * height <= isize::MAX) by (nonlinear_arith)
            requires
                3 * (width * height) <= isize::MAX,
        ;
        match solution {
            Some(route) => {
                let mut k: usize = 0;
                while k < route.len()
                    invariant
                        k <= route@.len(),
                        route@ == route_cells(solution),
                        width == width_of(self@),
                        height == height_of(self@),
                        forall|i: int| 0 <= i < k ==> in_grid(self@, #[trigger] route@[i]),
                    decreases route@.len() - k,
                {
                    let cell = route[k];
                    if cell.0 >= width || cell.1 >= height {
                        assert(!in_grid(self@, route@[k as int]));
                        return false;
                    }
                    k += 1;
                }
                true
            },
            None => true,
        }
    }
}

/// A rendered image.
pub struct Canvas {
    width: usize,
    height: usize,
    sheet: Sheet,
}

impl View for Canvas {
    type V = Seq<Seq<(u8, u8, u8)>>;

    closed spec fn view(&self) -> Seq<Seq<(u8, u8, u8)>> {
        pixels_of(self.sheet)
    }
}

/// The columns of an image are as many as it is wide, and each as long as
/// it is high.
pub open spec fn image_shaped(pixels: Seq<Seq<(u8, u8, u8)>>, width: int, height: int) -> bool {
    &&& 1 <= width <= u32::MAX
    &&& 1 <= height <= u32::MAX
    &&& pixels.len() == width
    &&& forall|x: int| 0 <= x < width ==> (#[trigger] pixels[x]).len() == height
}

impl Canvas {
    /// The width in pixels, to contracts.
    pub closed spec fn spec_width(&self) -> int {
        self.width as int
    }

    /// The height in pixels, to contracts.
    pub closed spec fn spec_height(&self) -> int {
        self.height as int
    }

    /// The recorded size is the size of the image.
    pub open spec fn wf(&self) -> bool {
        image_shaped(self@, self.spec_width(), self.spec_height())
    }

    /// The width in pixels.
    pub fn width(&self) -> (w: usize)
        requires
            self.wf(),
        ensures
            w == self@.len(),
            w == self.spec_width(),
    {
        self.width
    }

    /// The height in pixels.
    pub fn height(&self) -> (h: usize)
        requires
            self.wf(),
        ensures
            h == self@[0].len(),
            h == self.spec_height(),
    {
        self.height
    }

    /// The colour of the pixel at `(x, y)`, or `None` outside the image.
    pub fn pixel(&self, x: usize, y: usize) -> (color: Option<(u8, u8, u8)>)
        requires
            self.wf(),
        ensures
            color == if x < self@.len() && y < self@[0].len() {
                Some(self@[x as int][y as int])
            } else {
                None
            },
    {
        if x < self.width && y < self.height {
            Some(read_pixel(&self.sheet, x as u32, y as u32))
        } else {
            None
        }
    }

    /// The bytes of the image, row by row from the top, each row from the
    /// left, three bytes to a pixel.
    pub fn into_bytes(self) -> (bytes: Vec<u8>)
        requires
            self.wf(),
        ensures
            bytes@ == row_major(self@),
    {
        raw_bytes(self.sheet)
    }
}

} // verus!
