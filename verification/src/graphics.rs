//! The kernel's frame buffer: pixel writes with `usize` coordinates and
//! glyph drawing.

use vstd::prelude::*;
use crate::raster::{
    paint, pixel_index, glyph_bit, lemma_paint_one, lemma_paint_union, lemma_paint_same_region,
    lemma_glyph_bit, paint_nothing, lemma_pixel_unique,
};
use crate::fonts::{Font, FONT_SIZE, glyph};

verus! {

/// Order in which a frame buffer stores the colour channels of a pixel.
#[derive(Clone, Copy, PartialEq, Eq, Debug)]
pub enum PixelFormat {
    PixelRGBResv8bitPerColor,
    PixelBGRResv8bitPerColor,
}

/// An 8-bit-per-channel colour.
pub struct PixelColor {
    r: u8,
    g: u8,
    b: u8,
}

impl View for PixelColor {
    /// The colour as `(red, green, blue)`.
    type V = (u8, u8, u8);

    closed spec fn view(&self) -> (u8, u8, u8) {
        (self.r, self.g, self.b)
    }
}

impl PixelColor {
    /// The colour with the given red, green and blue channels.
    pub fn rgb(r: u8, g: u8, b: u8) -> (c: Self)
        ensures
            c@ == (r, g, b),
    {
        Self { r, g, b }
    }

    /// The colour with the given blue, green and red channels.
    pub fn bgr(b: u8, g: u8, r: u8) -> (c: Self)
        ensures
            c@ == (r, g, b),
    {
        Self { r, g, b }
    }
}

/// The three colour bytes of `color`, `(red, green, blue)`, in the order in
/// which a buffer of format `format` stores them.
pub open spec fn memory_order(format: PixelFormat, color: (u8, u8, u8)) -> (u8, u8, u8) {
    match format {
        PixelFormat::PixelRGBResv8bitPerColor => color,
        PixelFormat::PixelBGRResv8bitPerColor => (color.2, color.1, color.0),
    }
}

/// Width of a glyph in pixels.
pub const GLYPH_WIDTH: usize = 8;

/// Pixel `p` is one that the glyph with rows `rows`, drawn with its top-left
/// corner at `(x, y)`, sets: some set column `dx` of some row `dy` lands on
/// it.
pub open spec fn glyph_covers(rows: Seq<u8>, ppsl: int, x: int, y: int, p: int) -> bool {
    exists|dy: int, dx: int|
        0 <= dy < FONT_SIZE && 0 <= dx < GLYPH_WIDTH && #[trigger] glyph_bit(rows[dy], dx)
            && pixel_index(ppsl, x + dx, y + dy) == p
}

/// Like `glyph_covers`, over the cells that come before row `dy0`, column
/// `dx0` in drawing order.
pub open spec fn glyph_covers_before(
    rows: Seq<u8>,
    ppsl: int,
    x: int,
    y: int,
    dy0: int,
    dx0: int,
    p: int,
) -> bool {
    exists|dy: int, dx: int|
        0 <= dy < FONT_SIZE && 0 <= dx < GLYPH_WIDTH && (dy < dy0 || (dy == dy0 && dx < dx0))
            && #[trigger] glyph_bit(rows[dy], dx) && pixel_index(ppsl, x + dx, y + dy) == p
}

/// What the boot loader tells the kernel about the frame buffer: where it
/// starts (a physical address), its geometry and format, and its size in
/// bytes.
pub struct FrameBufferConfig {
    pub frame_buffer: usize,
    pub pixels_per_scan_line: usize,
    pub h_resolution: usize,
    pub v_resolution: usize,
    pub pixel_format: PixelFormat,
    pub size: u64,
}

/// Which pixels a glyph sets: drawn with its top-left corner at `(x0, y0)`
/// in rows `ppsl` pixels apart (wide enough for the glyph), it sets the
/// pixel `(x, y)` (with `x` below `ppsl`) exactly when that point lies in the
/// glyph's 8 by 16 cell and bit `7 - (x - x0)` of row `y - y0` is set: the
/// leftmost column is the row's top bit.
pub proof fn glyph_sets_its_set_bits(rows: Seq<u8>, ppsl: int, x0: int, y0: int, x: int, y: int)
    requires
        0 <= x0,
        0 <= y0,
        x0 + 8 <= ppsl,
        0 <= x < ppsl,
        0 <= y,
    ensures
        glyph_covers(rows, ppsl, x0, y0, pixel_index(ppsl, x, y)) <==> (x0 <= x < x0 + 8 && y0 <= y < y0
            + 16 && (rows[y - y0] >> ((7 - (x - x0)) as u32)) & 1u8 == 1u8),
{
    let p = pixel_index(ppsl, x, y);
    if x0 <= x < x0 + 8 && y0 <= y < y0 + 16 && (rows[y - y0] >> ((7 - (x - x0)) as u32)) & 1u8 == 1u8 {
        assert(glyph_bit(rows[y - y0], x - x0));
    }
    if glyph_covers(rows, ppsl, x0, y0, p) {
        let (dy, dx) = choose|dy: int, dx: int|
            0 <= dy < FONT_SIZE && 0 <= dx < GLYPH_WIDTH && #[trigger] glyph_bit(rows[dy], dx)
                && pixel_index(ppsl, x0 + dx, y0 + dy) == p;
        lemma_pixel_unique(ppsl, y0 + dy, x0 + dx, y, x);
    }
}

/// A glyph whose rows are all clear draws nothing, wherever it is drawn.
pub proof fn blank_glyph_draws_nothing(
    rows: Seq<u8>,
    ppsl: int,
    x: int,
    y: int,
    buf: Seq<u8>,
    c: (u8, u8, u8),
)
    requires
        rows.len() == FONT_SIZE,
        forall|dy: int| 0 <= dy < FONT_SIZE ==> #[trigger] rows[dy] == 0,
    ensures
        paint(buf, |p: int| glyph_covers(rows, ppsl, x, y, p), c) == buf,
{
    assert forall|dx: u32| #[trigger] glyph_bit(0u8, dx as int) == false by {
        assert((0u8 >> ((7 - dx as int) as u32)) & 1u8 == 0u8) by (bit_vector);
    }
    assert forall|p: int| !#[trigger] glyph_covers(rows, ppsl, x, y, p) by {
        if glyph_covers(rows, ppsl, x, y, p) {
            let (dy, dx) = choose|dy: int, dx: int|
                0 <= dy < FONT_SIZE && 0 <= dx < GLYPH_WIDTH && #[trigger] glyph_bit(rows[dy], dx)
                    && pixel_index(ppsl, x + dx, y + dy) == p;
            assert(rows[dy] == 0);
            assert(glyph_bit(0u8, (dx as u32) as int) == false);
        }
    }
    paint_nothing(buf, |p: int| glyph_covers(rows, ppsl, x, y, p), c);
}

/// A linear frame buffer: `pixels_per_scan_line` pixels per row, four bytes
/// per pixel, of which `h_resolution` by `v_resolution` are visible.
pub struct FrameBuffer<'a> {
    pub frame_buffer: &'a mut [u8],
    pub pixels_per_scan_line: usize,
    pub h_resolution: usize,
    pub v_resolution: usize,
    pub pixel_format: PixelFormat,
}

impl<'a> FrameBuffer<'a> {
    /// The frame buffer that `config` describes, over the `config.size`
    /// bytes `frame_buffer` that start at `config.frame_buffer`.
    pub fn from_config(frame_buffer: &'a mut [u8], config: &FrameBufferConfig) -> (fb: Self)
        requires
            old(frame_buffer)@.len() == config.size,
        ensures
            fb.frame_buffer@ == old(frame_buffer)@,
            fb.pixels_per_scan_line == config.pixels_per_scan_line,
            fb.h_resolution == config.h_resolution,
            fb.v_resolution == config.v_resolution,
            fb.pixel_format == config.pixel_format,
    {
        Self {
            frame_buffer,
            pixels_per_scan_line: config.pixels_per_scan_line,
            h_resolution: config.h_resolution,
            v_resolution: config.v_resolution,
            pixel_format: config.pixel_format,
        }
    }

    /// Whether the colour bytes of the pixel at `(x, y)` lie inside the buffer.
    pub open spec fn pixel_in_bounds(&self, x: int, y: int) -> bool {
        4 * pixel_index(self.pixels_per_scan_line as int, x, y) + 3 <= self.frame_buffer@.len()
    }

    /// The pixel at `(x, y)` can be addressed: its coordinates fit in a
    /// `usize` and its colour bytes lie inside the buffer.
    pub open spec fn pixel_addressable(&self, x: int, y: int) -> bool {
        &&& x <= usize::MAX
        &&& y <= usize::MAX
        &&& self.pixel_in_bounds(x, y)
    }

    /// Every pixel that the glyph with rows `rows` sets when drawn at `(x, y)`
    /// can be addressed.
    pub open spec fn glyph_addressable(&self, rows: Seq<u8>, x: int, y: int) -> bool {
        forall|dy: int, dx: int|
            0 <= dy < FONT_SIZE && 0 <= dx < GLYPH_WIDTH && #[trigger] glyph_bit(rows[dy], dx)
                ==> self.pixel_addressable(x + dx, y + dy)
    }

    /// Whether the pixel at `(x, y)` can be addressed, checked without
    /// overflow.
    pub fn pixel_fits(&self, x: usize, y: usize) -> (fits: bool)
        ensures
            fits == self.pixel_in_bounds(x as int, y as int),
    {
        let len = self.frame_buffer.len();
        match self.pixels_per_scan_line.checked_mul(y) {
            None => {
                assert(self.pixels_per_scan_line * y >= 0) by (nonlinear_arith);
                false
            },
            Some(row) => match row.checked_add(x) {
                None => false,
                Some(index) => {
                    if index > (usize::MAX - 3) / 4 {
                        false
                    } else {
                        4 * index + 3 <= len
                    }
                },
            },
        }
    }

    /// Whether every pixel that the glyph of `char` in `font` sets when drawn
    /// at `pos` can be addressed: what `write_ascii` needs.
    pub fn glyph_fits(&self, font: &Font, pos: (usize, usize), char: u8) -> (fits: bool)
        ensures
            fits == self.glyph_addressable(glyph(font@, char), pos.0 as int, pos.1 as int),
    {
        let ghost rows = glyph(font@, char);
        let glyph_rows = match font.get_font(char) {
            Ok(glyph_rows) => glyph_rows,
            Err(_) => return false,
        };
        let x = pos.0;
        let y = pos.1;
        let mut dy: usize = 0;
        while dy < FONT_SIZE
            invariant
                glyph_rows@ == rows,
                rows == glyph(font@, char),
                rows.len() == FONT_SIZE,
                dy <= FONT_SIZE,
                x == pos.0,
                y == pos.1,
                forall|a: int, b: int|
                    0 <= a < dy && 0 <= b < GLYPH_WIDTH && #[trigger] glyph_bit(rows[a], b)
                        ==> self.pixel_addressable(x + b, y + a),
            decreases FONT_SIZE - dy,
        {
            let mut dx: usize = 0;
            while dx < GLYPH_WIDTH
                invariant
                    glyph_rows@ == rows,
                    rows == glyph(font@, char),
                    rows.len() == FONT_SIZE,
                    dy < FONT_SIZE,
                    dx <= GLYPH_WIDTH,
                    x == pos.0,
                    y == pos.1,
                    forall|a: int, b: int|
                        0 <= a < FONT_SIZE && 0 <= b < GLYPH_WIDTH && (a < dy || (a == dy && b < dx))
                            && #[trigger] glyph_bit(rows[a], b) ==> self.pixel_addressable(x + b, y + a),
                decreases GLYPH_WIDTH - dx,
            {
                let row = glyph_rows[dy];
                proof {
                    lemma_glyph_bit(row, dx as u32);
                }
                if (row << (dx as u32)) & 0x80 != 0 {
                    assert(glyph_bit(rows[dy as int], dx as int));
                    if x > usize::MAX - dx || y > usize::MAX - dy {
                        assert(!self.pixel_addressable(x + dx, y + dy));
                        return false;
                    }
                    if !self.pixel_fits(x + dx, y + dy) {
                        assert(!self.pixel_addressable(x + dx, y + dy));
                        return false;
                    }
                }
                dx = dx + 1;
            }
            dy = dy + 1;
        }
        true
    }

    /// Sets the pixel at `pos = (x, y)`, that is pixel number
    /// `pixels_per_scan_line * y + x`, to `pixel_color`.
    pub fn write_pixel(&mut self, pos: (usize, usize), pixel_color: &PixelColor)
        requires
            old(self).pixel_in_bounds(pos.0 as int, pos.1 as int),
        ensures
            final(self).frame_buffer@ == paint(
                old(self).frame_buffer@,
                |p: int| p == pixel_index(old(self).pixels_per_scan_line as int, pos.0 as int, pos.1 as int),
                memory_order(old(self).pixel_format, pixel_color@),
            ),
            final(self).pixels_per_scan_line == old(self).pixels_per_scan_line,
            final(self).h_resolution == old(self).h_resolution,
            final(self).v_resolution == old(self).v_resolution,
            final(self).pixel_format == old(self).pixel_format,
            final(self).frame_buffer@.len() == old(self).frame_buffer@.len(),
            ({
                let base = 4 * (old(self).pixels_per_scan_line * pos.1 as int + pos.0 as int);
                let before = old(self).frame_buffer@;
                let after = final(self).frame_buffer@;
                &&& forall|i: int|
                    0 <= i < before.len() && !(base <= i < base + 3) ==> #[trigger] after[i] == before[i]
                &&& after[base + 1] == pixel_color@.1
                &&& old(self).pixel_format == PixelFormat::PixelRGBResv8bitPerColor ==> after[base]
                    == pixel_color@.0 && after[base + 2] == pixel_color@.2
                &&& old(self).pixel_format == PixelFormat::PixelBGRResv8bitPerColor ==> after[base]
                    == pixel_color@.2 && after[base + 2] == pixel_color@.0
            }),
    {
        let x = pos.0;
        let y = pos.1;
        proof {
            let ghost ppsl = self.pixels_per_scan_line;
            assert(0 <= ppsl * y) by (nonlinear_arith);
            assert(self.frame_buffer@.len() == self.frame_buffer.len());
        }
        let pixel_position = self.pixels_per_scan_line * y + x;
        let base = 4 * pixel_position;
        proof {
            lemma_paint_one(
                self.frame_buffer@,
                pixel_position as int,
                memory_order(self.pixel_format, pixel_color@),
            );
        }
        match self.pixel_format {
            PixelFormat::PixelRGBResv8bitPerColor => {
                self.frame_buffer[base] = pixel_color.r;
                self.frame_buffer[base + 1] = pixel_color.g;
                self.frame_buffer[base + 2] = pixel_color.b;
            },
            PixelFormat::PixelBGRResv8bitPerColor => {
                self.frame_buffer[base] = pixel_color.b;
                self.frame_buffer[base + 1] = pixel_color.g;
                self.frame_buffer[base + 2] = pixel_color.r;
            },
        }
    }

    /// Draws the glyph of `char` from `font` with its top-left corner at
    /// `pos`: each set bit of the glyph sets one pixel to `pixel_color`;
    /// clear bits leave the buffer as it was.
    pub fn write_ascii(&mut self, font: &Font, pos: (usize, usize), char: u8, pixel_color: &PixelColor)
        requires
            old(self).glyph_addressable(glyph(font@, char), pos.0 as int, pos.1 as int),
        ensures
            final(self).frame_buffer@ == paint(
                old(self).frame_buffer@,
                |p: int|
                    glyph_covers(
                        glyph(font@, char),
                        old(self).pixels_per_scan_line as int,
                        pos.0 as int,
                        pos.1 as int,
                        p,
                    ),
                memory_order(old(self).pixel_format, pixel_color@),
            ),
            final(self).pixels_per_scan_line == old(self).pixels_per_scan_line,
            final(self).h_resolution == old(self).h_resolution,
            final(self).v_resolution == old(self).v_resolution,
            final(self).pixel_format == old(self).pixel_format,
    {
        let ghost rows = glyph(font@, char);
        let glyph_rows = match font.get_font(char) {
            Ok(glyph_rows) => glyph_rows,
            Err(_) => return,
        };
        let ghost ppsl = self.pixels_per_scan_line as int;
        let ghost c = memory_order(self.pixel_format, pixel_color@);
        let ghost start = self.frame_buffer@;

        let font_y_size: usize = FONT_SIZE;
        let font_x_size: usize = GLYPH_WIDTH;
        let x = pos.0;
        let y = pos.1;
        let mut dy: usize = 0;
        while dy < font_y_size
            invariant
                glyph_rows@ == rows,
                rows.len() == FONT_SIZE,
                font_y_size == FONT_SIZE,
                font_x_size == GLYPH_WIDTH,
                dy <= font_y_size,
                x == pos.0,
                y == pos.1,
                ppsl == old(self).pixels_per_scan_line,
                start == old(self).frame_buffer@,
                c == memory_order(old(self).pixel_format, pixel_color@),
                self.pixels_per_scan_line == old(self).pixels_per_scan_line,
                self.h_resolution == old(self).h_resolution,
                self.v_resolution == old(self).v_resolution,
                self.pixel_format == old(self).pixel_format,
                self.frame_buffer@.len() == start.len(),
                old(self).glyph_addressable(rows, x as int, y as int),
                self.frame_buffer@ == paint(
                    start,
                    |p: int| glyph_covers_before(rows, ppsl, x as int, y as int, dy as int, 0, p),
                    c,
                ),
            decreases font_y_size - dy,
        {
            let mut dx: usize = 0;
            while dx < font_x_size
                invariant
                    glyph_rows@ == rows,
                    rows.len() == FONT_SIZE,
                    font_y_size == FONT_SIZE,
                    font_x_size == GLYPH_WIDTH,
                    dy < font_y_size,
                    dx <= font_x_size,
                    x == pos.0,
                    y == pos.1,
                    ppsl == old(self).pixels_per_scan_line,
                    start == old(self).frame_buffer@,
                    c == memory_order(old(self).pixel_format, pixel_color@),
                    self.pixels_per_scan_line == old(self).pixels_per_scan_line,
                    self.h_resolution == old(self).h_resolution,
                    self.v_resolution == old(self).v_resolution,
                    self.pixel_format == old(self).pixel_format,
                    self.frame_buffer@.len() == start.len(),
                    old(self).glyph_addressable(rows, x as int, y as int),
                    self.frame_buffer@ == paint(
                        start,
                        |p: int|
                            glyph_covers_before(rows, ppsl, x as int, y as int, dy as int, dx as int, p),
                        c,
                    ),
                decreases font_x_size - dx,
            {
                let ghost before = self.frame_buffer@;
                let row = glyph_rows[dy];
                proof {
                    lemma_glyph_bit(row, dx as u32);
                }
                if (row << (dx as u32)) & 0x80 != 0 {
                    assert(glyph_bit(rows[dy as int], dx as int));
                    assert(old(self).pixel_addressable(x + dx, y + dy));
                    self.write_pixel((x + dx, y + dy), pixel_color);
                    proof {
                        let q = pixel_index(ppsl, (x + dx) as int, (y + dy) as int);
                        lemma_paint_union(
                            start,
                            |p: int|
                                glyph_covers_before(rows, ppsl, x as int, y as int, dy as int, dx as int, p),
                            |p: int| p == q,
                            c,
                        );
                        assert forall|p: int|
                            #[trigger] glyph_covers_before(rows, ppsl, x as int, y as int, dy as int, dx + 1, p)
                                == (glyph_covers_before(rows, ppsl, x as int, y as int, dy as int, dx as int, p)
                                || p == q) by {
                            if p == q {
                                assert(glyph_bit(rows[dy as int], dx as int));
                            }
                        }
                        lemma_paint_same_region(
                            start,
                            |p: int|
                                glyph_covers_before(rows, ppsl, x as int, y as int, dy as int, dx as int, p)
                                    || p == q,
                            |p: int|
                                glyph_covers_before(rows, ppsl, x as int, y as int, dy as int, dx + 1, p),
                            c,
                        );
                    }
                } else {
                    proof {
                        assert forall|p: int|
                            #[trigger] glyph_covers_before(rows, ppsl, x as int, y as int, dy as int, dx + 1, p)
                                == glyph_covers_before(rows, ppsl, x as int, y as int, dy as int, dx as int, p)
                            by {}
                        lemma_paint_same_region(
                            start,
                            |p: int|
                                glyph_covers_before(rows, ppsl, x as int, y as int, dy as int, dx as int, p),
                            |p: int|
                                glyph_covers_before(rows, ppsl, x as int, y as int, dy as int, dx + 1, p),
                            c,
                        );
                    }
                }
                dx = dx + 1;
            }
            proof {
                assert forall|p: int|
                    #[trigger] glyph_covers_before(rows, ppsl, x as int, y as int, dy + 1, 0, p)
                        == glyph_covers_before(rows, ppsl, x as int, y as int, dy as int, GLYPH_WIDTH as int, p)
                    by {}
                lemma_paint_same_region(
                    start,
                    |p: int|
                        glyph_covers_before(rows, ppsl, x as int, y as int, dy as int, GLYPH_WIDTH as int, p),
                    |p: int| glyph_covers_before(rows, ppsl, x as int, y as int, dy + 1, 0, p),
                    c,
                );
            }
            dy = dy + 1;
        }
        proof {
            assert forall|p: int|
                #[trigger] glyph_covers(rows, ppsl, x as int, y as int, p)
                    == glyph_covers_before(rows, ppsl, x as int, y as int, FONT_SIZE as int, 0, p)
                by {}
            lemma_paint_same_region(
                start,
                |p: int| glyph_covers_before(rows, ppsl, x as int, y as int, FONT_SIZE as int, 0, p),
                |p: int| glyph_covers(rows, ppsl, x as int, y as int, p),
                c,
            );
        }
    }
}

} // verus!
