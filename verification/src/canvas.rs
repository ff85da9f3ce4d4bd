//! A fixed-size two-dimensional grid of colors with pixel read/write and a
//! serializer to the plain-text raster format.
//!
//! The grid is a flat row-major buffer with the origin at the top left: the
//! cell at `(x, y)` sits at index `y * width + x`. Every cell of a fresh
//! canvas is black, and the dimensions never change over the canvas's
//! lifetime.

use crate::color::{Color, CHANNEL_ZERO};
use crate::ppm;
use vstd::prelude::*;

verus! {

pub struct Canvas {
    width: u32,
    height: u32,
    buffer: Vec<Color>,
}

impl Canvas {
    /// The width the canvas was created with.
    pub closed spec fn spec_width(&self) -> int {
        self.width as int
    }

    /// The height the canvas was created with.
    pub closed spec fn spec_height(&self) -> int {
        self.height as int
    }

    /// The pixel grid as a flat row-major sequence: the color at `(x, y)`
    /// is `spec_pixels()[y * spec_width() + x]`.
    pub closed spec fn spec_pixels(&self) -> Seq<Color> {
        self.buffer@
    }

    /// The buffer holds exactly `width * height` cells.
    pub open spec fn wf(&self) -> bool {
        self.spec_pixels().len() == self.spec_width() * self.spec_height()
    }

    /// A canvas of the given dimensions with every pixel black. Dimensions
    /// may be zero; the grid must fit in memory.
    pub fn new(width: u32, height: u32) -> (c: Canvas)
        requires
            (width as int) * (height as int) <= usize::MAX,
        ensures
            c.wf(),
            c.spec_width() == width,
            c.spec_height() == height,
            forall|i: int|
                0 <= i < c.spec_pixels().len() ==> c.spec_pixels()[i] == (Color {
                    r: CHANNEL_ZERO,
                    g: CHANNEL_ZERO,
                    b: CHANNEL_ZERO,
                }),
    {
        proof {
            assert((width as int) * (height as int) >= 0) by (nonlinear_arith);
        }
        let cells = (width as usize) * (height as usize);
        let mut buffer: Vec<Color> = Vec::new();
        let mut filled: usize = 0;
        while filled < cells
            invariant
                filled <= cells,
                buffer@.len() == filled,
                forall|i: int|
                    0 <= i < filled ==> buffer@[i] == (Color {
                        r: CHANNEL_ZERO,
                        g: CHANNEL_ZERO,
                        b: CHANNEL_ZERO,
                    }),
            decreases cells - filled,
        {
            buffer.push(Color::black());
            filled += 1;
        }
        Canvas { width, height, buffer }
    }

    pub fn width(&self) -> (w: u32)
        ensures
            w == self.spec_width(),
    {
        self.width
    }

    pub fn height(&self) -> (h: u32)
        ensures
            h == self.spec_height(),
    {
        self.height
    }

    /// Overwrites the cell at `(x, y)`; both coordinates must be in range.
    pub fn write_pixel(&mut self, x: u32, y: u32, color: Color)
        requires
            old(self).wf(),
            x < old(self).spec_width(),
            y < old(self).spec_height(),
        ensures
            final(self).wf(),
            final(self).spec_width() == old(self).spec_width(),
            final(self).spec_height() == old(self).spec_height(),
            final(self).spec_pixels() == old(self).spec_pixels().update(
                (y as int) * old(self).spec_width() + x,
                color,
            ),
    {
        let total = self.buffer.len();
        proof {
            lemma_pixel_index_in_range(
                self.spec_width(),
                self.spec_height(),
                x as int,
                y as int,
            );
            assert((y as int) * (self.width as int) + (x as int) < total);
        }
        let index = (y as usize) * (self.width as usize) + (x as usize);
        self.buffer[index] = color;
    }

    /// Reads the cell at `(x, y)`; both coordinates must be in range.
    pub fn pixel_at(&self, x: u32, y: u32) -> (c: Color)
        requires
            self.wf(),
            x < self.spec_width(),
            y < self.spec_height(),
        ensures
            c == self.spec_pixels()[(y as int) * self.spec_width() + x],
    {
        let total = self.buffer.len();
        proof {
            lemma_pixel_index_in_range(
                self.spec_width(),
                self.spec_height(),
                x as int,
                y as int,
            );
            assert((y as int) * (self.width as int) + (x as int) < total);
        }
        let index = (y as usize) * (self.width as usize) + (x as usize);
        self.buffer[index]
    }

    /// Serializes the canvas to the raster text format: the `P3` header,
    /// each row's clamped, scaled and rounded channel bytes wrapped after
    /// fifty pixel triples, and one extra trailing newline.
    pub fn to_ppm(&self) -> (text: String)
        requires
            self.wf(),
        ensures
            text@ == ppm::document_str(
                self.spec_width() as nat,
                self.spec_height() as nat,
                self.spec_pixels(),
            ),
    {
        ppm::render(self.width, self.height, &self.buffer)
    }
}

/// The row-major index of in-range coordinates lies within the grid.
pub proof fn lemma_pixel_index_in_range(width: int, height: int, x: int, y: int)
    requires
        0 <= x < width,
        0 <= y < height,
    ensures
        0 <= y * width + x < width * height,
{
    assert(0 <= y * width + x < width * height) by (nonlinear_arith)
        requires
            0 <= x < width,
            0 <= y < height,
    ;
}

/// A fresh canvas reads black at every pair of in-range coordinates: the
/// cell any such pair addresses lies within the grid, and every cell of a
/// fresh grid is black.
pub proof fn lemma_fresh_canvas_is_black(c: Canvas, x: int, y: int)
    requires
        c.wf(),
        0 <= x < c.spec_width(),
        0 <= y < c.spec_height(),
        forall|i: int|
            0 <= i < c.spec_pixels().len() ==> c.spec_pixels()[i] == (Color {
                r: CHANNEL_ZERO,
                g: CHANNEL_ZERO,
                b: CHANNEL_ZERO,
            }),
    ensures
        c.spec_pixels()[y * c.spec_width() + x] == (Color {
            r: CHANNEL_ZERO,
            g: CHANNEL_ZERO,
            b: CHANNEL_ZERO,
        }),
{
    lemma_pixel_index_in_range(c.spec_width(), c.spec_height(), x, y);
}

/// Writing one pixel is local: the written cell reads the new color, and
/// every other pair of in-range coordinates reads what it read before,
/// because distinct coordinate pairs address distinct row-major indices.
pub proof fn lemma_write_pixel_is_local(
    width: int,
    height: int,
    pixels: Seq<Color>,
    color: Color,
    x: int,
    y: int,
    ox: int,
    oy: int,
)
    requires
        pixels.len() == width * height,
        0 <= x < width,
        0 <= y < height,
        0 <= ox < width,
        0 <= oy < height,
    ensures
        pixels.update(y * width + x, color)[y * width + x] == color,
        !(ox == x && oy == y) ==> pixels.update(y * width + x, color)[oy * width + ox]
            == pixels[oy * width + ox],
{
    lemma_pixel_index_in_range(width, height, x, y);
    lemma_pixel_index_in_range(width, height, ox, oy);
    if !(ox == x && oy == y) {
        assert(oy * width + ox != y * width + x) by (nonlinear_arith)
            requires
                0 <= x < width,
                0 <= ox < width,
                !(ox == x && oy == y),
        ;
    }
}

} // verus!
