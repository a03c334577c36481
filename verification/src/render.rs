//! Rendering a maze as a raster image, one pixel per cell.
//!
//! Walls are black and paths are white. The image is an RGB buffer of the
//! `image` crate, kept behind [`Canvas`].

use vstd::prelude::*;
use image::{Rgb, RgbImage};
use crate::cell::{CellIndex, CellType};
use crate::maze::Maze;

verus! {

/// An RGB image with eight bits per channel.
#[verifier::external_body]
pub struct Canvas {
    image: RgbImage,
}

/// The colour, as `(red, green, blue)`, of each pixel of the canvas by its
/// coordinates `(x, y)`.
pub uninterp spec fn canvas_pixels(canvas: Canvas) -> Map<(int, int), (u8, u8, u8)>;

/// Width and height of the canvas, in pixels.
pub uninterp spec fn canvas_size(canvas: Canvas) -> (nat, nat);

/// The colour of a cell: white where it is open, black where it is a wall.
pub open spec fn cell_color(open: bool) -> (u8, u8, u8) {
    if open {
        (255u8, 255u8, 255u8)
    } else {
        (0u8, 0u8, 0u8)
    }
}

/// The picture of a maze: one pixel for each cell of the grid, in the colour
/// of the cell.
pub open spec fn picture(size: (usize, usize), paths: Set<CellIndex>) -> Map<
    (int, int),
    (u8, u8, u8),
> {
    Map::new(
        |p: (int, int)| 0 <= p.0 < size.0 && 0 <= p.1 < size.1,
        |p: (int, int)| cell_color(paths.contains((p.0 as usize, p.1 as usize))),
    )
}

/// The picture of a maze of which only the cells before `(x, y)`, column by
/// column, are painted yet; the others are black.
pub open spec fn picture_upto(size: (usize, usize), paths: Set<CellIndex>, x: int, y: int) -> Map<
    (int, int),
    (u8, u8, u8),
> {
    Map::new(
        |p: (int, int)| 0 <= p.0 < size.0 && 0 <= p.1 < size.1,
        |p: (int, int)|
            if p.0 < x || (p.0 == x && p.1 < y) {
                cell_color(paths.contains((p.0 as usize, p.1 as usize)))
            } else {
                (0u8, 0u8, 0u8)
            },
    )
}

/// `RgbImage::new`: an image of the given size whose pixels are all black.
/// The three bytes of each pixel must fit, all together, in one allocation,
/// which holds at most `isize::MAX` bytes.
#[verifier::external_body]
fn blank_canvas(width: u32, height: u32) -> (canvas: Canvas)
    requires
        3 * width * height <= isize::MAX,
    ensures
        canvas_size(canvas) == (width as nat, height as nat),
        canvas_pixels(canvas) == Map::new(
            |p: (int, int)| 0 <= p.0 < width && 0 <= p.1 < height,
            |p: (int, int)| (0u8, 0u8, 0u8),
        ),
{
    Canvas { image: RgbImage::new(width, height) }
}

/// `ImageBuffer::put_pixel`: the pixel at `(x, y)`, which must lie on the
/// image, gets the given colour, and no other pixel changes.
#[verifier::external_body]
fn put_pixel(canvas: &mut Canvas, x: u32, y: u32, color: (u8, u8, u8))
    requires
        x < canvas_size(*old(canvas)).0,
        y < canvas_size(*old(canvas)).1,
    ensures
        canvas_size(*final(canvas)) == canvas_size(*old(canvas)),
        canvas_pixels(*final(canvas)) == canvas_pixels(*old(canvas)).insert(
            (x as int, y as int),
            color,
        ),
{
    canvas.image.put_pixel(x, y, Rgb([color.0, color.1, color.2]))
}

/// `ImageBuffer::into_raw`: the bytes of the image, three for each pixel,
/// row after row from the top, and from left to right within a row.
#[verifier::external_body]
fn raw_bytes(canvas: Canvas) -> (bytes: Vec<u8>)
    ensures
        bytes@.len() == 3 * canvas_size(canvas).0 * canvas_size(canvas).1,
        forall|x: int, y: int|
            0 <= x < canvas_size(canvas).0 && 0 <= y < canvas_size(canvas).1
                ==> #[trigger] canvas_pixels(canvas)[(x, y)] == (
                bytes@[3 * (y * canvas_size(canvas).0 + x)],
                bytes@[3 * (y * canvas_size(canvas).0 + x) + 1],
                bytes@[3 * (y * canvas_size(canvas).0 + x) + 2],
            ),
{
    canvas.image.into_raw()
}

impl Canvas {
    /// The bytes of the image: red, green and blue of each pixel, row after
    /// row from the top, and from left to right within a row.
    pub fn into_raw(self) -> (bytes: Vec<u8>)
        ensures
            bytes@.len() == 3 * canvas_size(self).0 * canvas_size(self).1,
            forall|x: int, y: int|
                0 <= x < canvas_size(self).0 && 0 <= y < canvas_size(self).1
                    ==> #[trigger] canvas_pixels(self)[(x, y)] == (
                    bytes@[3 * (y * canvas_size(self).0 + x)],
                    bytes@[3 * (y * canvas_size(self).0 + x) + 1],
                    bytes@[3 * (y * canvas_size(self).0 + x) + 2],
                ),
    {
        raw_bytes(self)
    }
}

impl Maze {
    /// Builds an image of the maze. Every cell is one pixel; walls are black,
    /// paths are white.
    ///
    /// The sizes must fit the image: each in a `u32`, and three bytes for
    /// each cell in one allocation, which holds at most `isize::MAX` bytes.
    pub fn build_image(&self) -> (canvas: Canvas)
        requires
            self.wf(),
            self.size().0 <= u32::MAX,
            self.size().1 <= u32::MAX,
            3 * self.size().0 * self.size().1 <= isize::MAX,
        ensures
            canvas_size(canvas) == (self.size().0 as nat, self.size().1 as nat),
            canvas_pixels(canvas) == picture(self.size(), self@),
    {
        let size = self.size();
        let mut img = blank_canvas(size.0 as u32, size.1 as u32);
        proof {
            assert(canvas_pixels(img) =~= picture_upto(size, self@, 0, 0));
        }
        let mut i: usize = 0;
        while i < size.0
            invariant
                self.wf(),
                size == self.size(),
                size.0 <= u32::MAX,
                size.1 <= u32::MAX,
                i <= size.0,
                canvas_size(img) == (size.0 as nat, size.1 as nat),
                canvas_pixels(img) == picture_upto(size, self@, i as int, 0),
            decreases size.0 - i,
        {
            let mut j: usize = 0;
            while j < size.1
                invariant
                    self.wf(),
                    size == self.size(),
                    size.0 <= u32::MAX,
                    size.1 <= u32::MAX,
                    i < size.0,
                    j <= size.1,
                    canvas_size(img) == (size.0 as nat, size.1 as nat),
                    canvas_pixels(img) == picture_upto(size, self@, i as int, j as int),
                decreases size.1 - j,
            {
                let color: (u8, u8, u8) = match self.cell((i, j)) {
                    CellType::Wall => (0, 0, 0),
                    CellType::Path => (255, 255, 255),
                };
                put_pixel(&mut img, i as u32, j as u32, color);
                proof {
                    assert(canvas_pixels(img) =~= picture_upto(size, self@, i as int, j + 1));
                }
                j += 1;
            }
            proof {
                assert(canvas_pixels(img) =~= picture_upto(size, self@, i + 1, 0));
            }
            i += 1;
        }
        proof {
            assert(canvas_pixels(img) =~= picture(size, self@));
        }
        img
    }
}

} // verus!
