//! What the kernel draws once it has taken over the frame buffer.

use vstd::prelude::*;
use crate::raster::{paint, pixel_index, lemma_paint_union, lemma_paint_same_region, lemma_pixel_bytes,
    lemma_pixel_unique};
use crate::fonts::{Font, glyph};
use crate::graphics::{FrameBuffer, PixelColor, PixelFormat, memory_order, glyph_covers};

verus! {

/// Left edge of the green rectangle.
pub const BOX_X: usize = 100;
/// Top edge of the green rectangle.
pub const BOX_Y: usize = 100;
/// Width of the green rectangle.
pub const BOX_WIDTH: usize = 200;
/// Height of the green rectangle.
pub const BOX_HEIGHT: usize = 100;
/// Where the greeting glyph is drawn.
pub const GREETING_X: usize = 50;
/// Where the greeting glyph is drawn.
pub const GREETING_Y: usize = 50;
/// The character greeting the user.
pub const GREETING: u8 = 65;

/// The pixel number of cell `(a, b)` of the rectangle whose top-left corner
/// is `(x0, y0)`.
pub open spec fn rect_cell(ppsl: int, x0: int, y0: int, a: int, b: int) -> int {
    pixel_index(ppsl, x0 + a, y0 + b)
}

/// Pixel `p` lies in the `w` by `h` rectangle whose top-left corner is
/// `(x0, y0)`.
pub open spec fn rect_covers(ppsl: int, x0: int, y0: int, w: int, h: int, p: int) -> bool {
    exists|a: int, b: int| 0 <= a < w && 0 <= b < h && #[trigger] rect_cell(ppsl, x0, y0, a, b) == p
}

/// Like `rect_covers`, over the cells that come before column `a0`, row
/// `b0` in drawing order (column by column).
pub open spec fn rect_covers_before(
    ppsl: int,
    x0: int,
    y0: int,
    w: int,
    h: int,
    a0: int,
    b0: int,
    p: int,
) -> bool {
    exists|a: int, b: int|
        0 <= a < w && 0 <= b < h && (a < a0 || (a == a0 && b < b0)) && #[trigger] rect_cell(
            ppsl,
            x0,
            y0,
            a,
            b,
        ) == p
}

/// Every pixel of the `w` by `h` rectangle at `(x0, y0)` lies in the buffer.
pub open spec fn rect_in_bounds(fb: &FrameBuffer, x0: int, y0: int, w: int, h: int) -> bool {
    forall|a: int, b: int| 0 <= a < w && 0 <= b < h ==> #[trigger] fb.pixel_in_bounds(x0 + a, y0 + b)
}

/// The memory-order bytes of the colour `(r, g, b)` in `fb`'s format.
pub open spec fn bytes_of(fb: &FrameBuffer, r: u8, g: u8, b: u8) -> (u8, u8, u8) {
    memory_order(fb.pixel_format, (r, g, b))
}

/// What the boot screen leaves in the bytes `start` of a buffer with
/// `ppsl` pixels per row, `h_resolution` by `v_resolution` visible pixels
/// and stored colours `white`, `green`, `black`: the visible area white, the
/// rectangle green over it, and the greeting glyph in black over both.
pub open spec fn boot_screen(
    start: Seq<u8>,
    ppsl: int,
    h_resolution: int,
    v_resolution: int,
    greeting_rows: Seq<u8>,
    white: (u8, u8, u8),
    green: (u8, u8, u8),
    black: (u8, u8, u8),
) -> Seq<u8> {
    paint(
        paint(
            paint(start, |p: int| rect_covers(ppsl, 0, 0, h_resolution, v_resolution, p), white),
            |p: int|
                rect_covers(
                    ppsl,
                    BOX_X as int,
                    BOX_Y as int,
                    BOX_WIDTH as int,
                    BOX_HEIGHT as int,
                    p,
                ),
            green,
        ),
        |p: int| glyph_covers(greeting_rows, ppsl, GREETING_X as int, GREETING_Y as int, p),
        black,
    )
}

/// Byte `k` of the pixel `(x, y)` of a buffer with rows `ppsl` pixels apart.
pub open spec fn pixel_byte(buf: Seq<u8>, ppsl: int, x: int, y: int, k: int) -> u8 {
    buf[4 * (ppsl * y + x) + k]
}

/// The pixel `(x, y)`, with `x` below `ppsl`, lies in the `w` by `h`
/// rectangle at `(x0, y0)` (which also lies left of `ppsl`) exactly when
/// its coordinates do.
proof fn lemma_rect_covers_point(ppsl: int, x0: int, y0: int, w: int, h: int, x: int, y: int)
    requires
        0 <= x0,
        0 <= y0,
        0 <= w,
        0 <= h,
        x0 + w <= ppsl,
        0 <= x < ppsl,
        0 <= y,
    ensures
        rect_covers(ppsl, x0, y0, w, h, pixel_index(ppsl, x, y)) <==> (x0 <= x < x0 + w && y0 <= y < y0
            + h),
{
    let p = pixel_index(ppsl, x, y);
    if x0 <= x < x0 + w && y0 <= y < y0 + h {
        assert(rect_cell(ppsl, x0, y0, x - x0, y - y0) == p);
    }
    if rect_covers(ppsl, x0, y0, w, h, p) {
        let (a, b) = choose|a: int, b: int|
            0 <= a < w && 0 <= b < h && #[trigger] rect_cell(ppsl, x0, y0, a, b) == p;
        lemma_pixel_unique(ppsl, y0 + b, x0 + a, y, x);
    }
}

/// The pixel `(x, y)`, with `x` below `ppsl`, is set by the glyph with rows
/// `rows` drawn at `(50, 50)` exactly when it lies in the glyph's 8 by 16
/// cell and the matching bit of its row is set (bit 7 is the leftmost
/// column).
proof fn lemma_greeting_covers_point(rows: Seq<u8>, ppsl: int, x: int, y: int)
    requires
        58 <= ppsl,
        0 <= x < ppsl,
        0 <= y,
    ensures
        glyph_covers(rows, ppsl, 50, 50, pixel_index(ppsl, x, y)) <==> (50 <= x < 58 && 50 <= y < 66
            && (rows[y - 50] >> ((57 - x) as u32)) & 1u8 == 1u8),
{
    let p = pixel_index(ppsl, x, y);
    if 50 <= x < 58 && 50 <= y < 66 && (rows[y - 50] >> ((57 - x) as u32)) & 1u8 == 1u8 {
        assert(crate::raster::glyph_bit(rows[y - 50], x - 50));
    }
    if glyph_covers(rows, ppsl, 50, 50, p) {
        let (dy, dx) = choose|dy: int, dx: int|
            0 <= dy < 16 && 0 <= dx < 8 && #[trigger] crate::raster::glyph_bit(rows[dy], dx)
                && pixel_index(ppsl, 50 + dx, 50 + dy) == p;
        lemma_pixel_unique(ppsl, 50 + dy, 50 + dx, y, x);
    }
}

/// What the boot screen leaves in each pixel `(x, y)` of a buffer whose rows
/// are `ppsl >= 300` pixels apart and whose visible width is at most `ppsl`
/// (so that no two points of the picture share a pixel), colour byte `k`:
/// - in the 8 by 16 cell at `(50, 50)`, where the greeting glyph's bit is
///   set: black (0);
/// - else, in the 200 by 100 box at `(100, 100)`: green (0, 255, 0);
/// - else, in the visible `h_resolution` by `v_resolution` area: white (255);
/// - else: the byte as it was.
/// The reserved fourth byte of every pixel keeps its value.
pub proof fn boot_screen_pixels(
    start: Seq<u8>,
    ppsl: int,
    h_resolution: int,
    v_resolution: int,
    greeting_rows: Seq<u8>,
    format: PixelFormat,
    x: int,
    y: int,
    k: int,
)
    requires
        300 <= ppsl,
        0 <= h_resolution <= ppsl,
        0 <= v_resolution,
        0 <= x < ppsl,
        0 <= y,
        0 <= k < 4,
        4 * (ppsl * y + x) + k < start.len(),
    ensures
        ({
            let out = boot_screen(
                start,
                ppsl,
                h_resolution,
                v_resolution,
                greeting_rows,
                memory_order(format, (255, 255, 255)),
                memory_order(format, (0, 255, 0)),
                memory_order(format, (0, 0, 0)),
            );
            let i = 4 * (ppsl * y + x) + k;
            let in_glyph = 50 <= x < 58 && 50 <= y < 66 && (greeting_rows[y - 50] >> ((57 - x) as u32))
                & 1u8 == 1u8;
            let in_box = 100 <= x < 300 && 100 <= y < 200;
            let visible = x < h_resolution && y < v_resolution;
            &&& k == 3 ==> out[i] == start[i]
            &&& k < 3 && in_glyph ==> out[i] == 0
            &&& k < 3 && !in_glyph && in_box ==> out[i] == (if k == 1 {
                255u8
            } else {
                0u8
            })
            &&& k < 3 && !in_glyph && !in_box && visible ==> out[i] == 255
            &&& k < 3 && !in_glyph && !in_box && !visible ==> out[i] == start[i]
        }),
{
    let p = ppsl * y + x;
    let i = 4 * p + k;
    assert(0 <= p) by (nonlinear_arith)
        requires
            p == ppsl * y + x,
            0 <= ppsl,
            0 <= y,
            0 <= x,
    ;
    lemma_pixel_bytes(i, p);
    assert(i / 4 == p && i % 4 == k) by (nonlinear_arith)
        requires
            i == 4 * p + k,
            0 <= k < 4,
    ;
    lemma_rect_covers_point(ppsl, 0, 0, h_resolution, v_resolution, x, y);
    lemma_rect_covers_point(
        ppsl,
        BOX_X as int,
        BOX_Y as int,
        BOX_WIDTH as int,
        BOX_HEIGHT as int,
        x,
        y,
    );
    lemma_greeting_covers_point(greeting_rows, ppsl, x, y);
}

/// Sets every pixel of the `w` by `h` rectangle at `(x0, y0)` to `color`,
/// column by column.
fn fill_rect(fb: &mut FrameBuffer, x0: usize, y0: usize, w: usize, h: usize, color: &PixelColor)
    requires
        x0 + w <= usize::MAX,
        y0 + h <= usize::MAX,
        rect_in_bounds(old(fb), x0 as int, y0 as int, w as int, h as int),
    ensures
        final(fb).frame_buffer@ == paint(
            old(fb).frame_buffer@,
            |p: int|
                rect_covers(old(fb).pixels_per_scan_line as int, x0 as int, y0 as int, w as int, h as int, p),
            memory_order(old(fb).pixel_format, color@),
        ),
        final(fb).pixels_per_scan_line == old(fb).pixels_per_scan_line,
        final(fb).h_resolution == old(fb).h_resolution,
        final(fb).v_resolution == old(fb).v_resolution,
        final(fb).pixel_format == old(fb).pixel_format,
{
    let ghost ppsl = fb.pixels_per_scan_line as int;
    let ghost c = memory_order(fb.pixel_format, color@);
    let ghost start = fb.frame_buffer@;
    let mut a: usize = 0;
    while a < w
        invariant
            a <= w,
            x0 + w <= usize::MAX,
            y0 + h <= usize::MAX,
            ppsl == old(fb).pixels_per_scan_line,
            start == old(fb).frame_buffer@,
            c == memory_order(old(fb).pixel_format, color@),
            fb.pixels_per_scan_line == old(fb).pixels_per_scan_line,
            fb.h_resolution == old(fb).h_resolution,
            fb.v_resolution == old(fb).v_resolution,
            fb.pixel_format == old(fb).pixel_format,
            fb.frame_buffer@.len() == start.len(),
            rect_in_bounds(old(fb), x0 as int, y0 as int, w as int, h as int),
            fb.frame_buffer@ == paint(
                start,
                |p: int| rect_covers_before(ppsl, x0 as int, y0 as int, w as int, h as int, a as int, 0, p),
                c,
            ),
        decreases w - a,
    {
        let mut b: usize = 0;
        while b < h
            invariant
                a < w,
                b <= h,
                x0 + w <= usize::MAX,
                y0 + h <= usize::MAX,
                ppsl == old(fb).pixels_per_scan_line,
                start == old(fb).frame_buffer@,
                c == memory_order(old(fb).pixel_format, color@),
                fb.pixels_per_scan_line == old(fb).pixels_per_scan_line,
                fb.h_resolution == old(fb).h_resolution,
                fb.v_resolution == old(fb).v_resolution,
                fb.pixel_format == old(fb).pixel_format,
                fb.frame_buffer@.len() == start.len(),
                rect_in_bounds(old(fb), x0 as int, y0 as int, w as int, h as int),
                fb.frame_buffer@ == paint(
                    start,
                    |p: int|
                        rect_covers_before(ppsl, x0 as int, y0 as int, w as int, h as int, a as int, b as int, p),
                    c,
                ),
            decreases h - b,
        {
            assert(old(fb).pixel_in_bounds(x0 + a, y0 + b));
            fb.write_pixel((x0 + a, y0 + b), color);
            proof {
                let q = rect_cell(ppsl, x0 as int, y0 as int, a as int, b as int);
                lemma_paint_union(
                    start,
                    |p: int|
                        rect_covers_before(ppsl, x0 as int, y0 as int, w as int, h as int, a as int, b as int, p),
                    |p: int| p == q,
                    c,
                );
                assert forall|p: int|
                    #[trigger] rect_covers_before(ppsl, x0 as int, y0 as int, w as int, h as int, a as int, b + 1, p)
                        == (rect_covers_before(ppsl, x0 as int, y0 as int, w as int, h as int, a as int, b as int, p)
                        || p == q) by {
                    if p == q {
                        assert(rect_cell(ppsl, x0 as int, y0 as int, a as int, b as int) == q);
                    }
                }
                lemma_paint_same_region(
                    start,
                    |p: int|
                        rect_covers_before(ppsl, x0 as int, y0 as int, w as int, h as int, a as int, b as int, p)
                            || p == q,
                    |p: int|
                        rect_covers_before(ppsl, x0 as int, y0 as int, w as int, h as int, a as int, b + 1, p),
                    c,
                );
            }
            b = b + 1;
        }
        proof {
            assert forall|p: int|
                #[trigger] rect_covers_before(ppsl, x0 as int, y0 as int, w as int, h as int, a + 1, 0, p)
                    == rect_covers_before(ppsl, x0 as int, y0 as int, w as int, h as int, a as int, h as int, p)
                by {}
            lemma_paint_same_region(
                start,
                |p: int|
                    rect_covers_before(ppsl, x0 as int, y0 as int, w as int, h as int, a as int, h as int, p),
                |p: int| rect_covers_before(ppsl, x0 as int, y0 as int, w as int, h as int, a + 1, 0, p),
                c,
            );
        }
        a = a + 1;
    }
    proof {
        assert forall|p: int|
            #[trigger] rect_covers(ppsl, x0 as int, y0 as int, w as int, h as int, p)
                == rect_covers_before(ppsl, x0 as int, y0 as int, w as int, h as int, w as int, 0, p)
            by {}
        lemma_paint_same_region(
            start,
            |p: int| rect_covers_before(ppsl, x0 as int, y0 as int, w as int, h as int, w as int, 0, p),
            |p: int| rect_covers(ppsl, x0 as int, y0 as int, w as int, h as int, p),
            c,
        );
    }
}

/// Whether every pixel of the `w` by `h` rectangle at `(x0, y0)` lies in
/// the buffer; its bottom-right pixel is the last of them in memory.
pub fn rect_fits(fb: &FrameBuffer, x0: usize, y0: usize, w: usize, h: usize) -> (fits: bool)
    requires
        x0 + w <= usize::MAX,
        y0 + h <= usize::MAX,
    ensures
        fits == rect_in_bounds(fb, x0 as int, y0 as int, w as int, h as int),
{
    if w == 0 || h == 0 {
        return true;
    }
    let fits = fb.pixel_fits(x0 + w - 1, y0 + h - 1);
    proof {
        let ppsl = fb.pixels_per_scan_line as int;
        if fits {
            assert forall|a: int, b: int| 0 <= a < w && 0 <= b < h implies #[trigger] fb.pixel_in_bounds(
                x0 + a,
                y0 + b,
            ) by {
                assert(ppsl * (y0 + b) <= ppsl * (y0 + h - 1)) by (nonlinear_arith)
                    requires
                        0 <= b < h,
                        0 <= ppsl,
                ;
            }
        } else {
            assert(!fb.pixel_in_bounds(x0 + (w - 1), y0 + (h - 1)));
        }
    }
    fits
}

/// Whether the boot screen can be drawn on `fb` with `font`: the visible
/// area, the rectangle and the greeting glyph all lie in the buffer.
pub fn boot_screen_fits(fb: &FrameBuffer, font: &Font) -> (fits: bool)
    ensures
        fits == (rect_in_bounds(fb, 0, 0, fb.h_resolution as int, fb.v_resolution as int)
            && rect_in_bounds(fb, BOX_X as int, BOX_Y as int, BOX_WIDTH as int, BOX_HEIGHT as int)
            && fb.glyph_addressable(glyph(font@, GREETING), GREETING_X as int, GREETING_Y as int)),
{
    rect_fits(fb, 0, 0, fb.h_resolution, fb.v_resolution) && rect_fits(
        fb,
        BOX_X,
        BOX_Y,
        BOX_WIDTH,
        BOX_HEIGHT,
    ) && fb.glyph_fits(font, (GREETING_X, GREETING_Y), GREETING)
}

/// The kernel's first picture: the visible area white, a green
/// `BOX_WIDTH` by `BOX_HEIGHT` rectangle at `(BOX_X, BOX_Y)`, and the glyph
/// of `GREETING` in black at `(GREETING_X, GREETING_Y)`.
pub fn draw_boot_screen(frame_buffer: &mut FrameBuffer, font: &Font)
    requires
        rect_in_bounds(
            old(frame_buffer),
            0,
            0,
            old(frame_buffer).h_resolution as int,
            old(frame_buffer).v_resolution as int,
        ),
        rect_in_bounds(
            old(frame_buffer),
            BOX_X as int,
            BOX_Y as int,
            BOX_WIDTH as int,
            BOX_HEIGHT as int,
        ),
        old(frame_buffer).glyph_addressable(
            glyph(font@, GREETING),
            GREETING_X as int,
            GREETING_Y as int,
        ),
    ensures
        final(frame_buffer).frame_buffer@ == boot_screen(
            old(frame_buffer).frame_buffer@,
            old(frame_buffer).pixels_per_scan_line as int,
            old(frame_buffer).h_resolution as int,
            old(frame_buffer).v_resolution as int,
            glyph(font@, GREETING),
            bytes_of(old(frame_buffer), 255, 255, 255),
            bytes_of(old(frame_buffer), 0, 255, 0),
            bytes_of(old(frame_buffer), 0, 0, 0),
        ),
        final(frame_buffer).pixels_per_scan_line == old(frame_buffer).pixels_per_scan_line,
        final(frame_buffer).h_resolution == old(frame_buffer).h_resolution,
        final(frame_buffer).v_resolution == old(frame_buffer).v_resolution,
        final(frame_buffer).pixel_format == old(frame_buffer).pixel_format,
        old(frame_buffer).pixels_per_scan_line >= 300 && old(frame_buffer).h_resolution
            <= old(frame_buffer).pixels_per_scan_line ==> forall|x: int, y: int, k: int|
            0 <= x < old(frame_buffer).pixels_per_scan_line && 0 <= y && 0 <= k < 3 && 4 * (
            old(frame_buffer).pixels_per_scan_line * y + x) + k < old(frame_buffer).frame_buffer@.len()
                ==> ({
                let b = #[trigger] pixel_byte(
                    final(frame_buffer).frame_buffer@,
                    old(frame_buffer).pixels_per_scan_line as int,
                    x,
                    y,
                    k,
                );
                let in_cell = 50 <= x < 58 && 50 <= y < 66;
                let in_box = 100 <= x < 300 && 100 <= y < 200;
                let visible = x < old(frame_buffer).h_resolution && y < old(frame_buffer).v_resolution;
                &&& in_box ==> b == (if k == 1 {
                    255u8
                } else {
                    0u8
                })
                &&& !in_box && !in_cell && visible ==> b == 255
                &&& !in_box && !in_cell && !visible ==> b == pixel_byte(
                    old(frame_buffer).frame_buffer@,
                    old(frame_buffer).pixels_per_scan_line as int,
                    x,
                    y,
                    k,
                )
            }),
{
    let ghost start = frame_buffer.frame_buffer@;
    let ghost ppsl = frame_buffer.pixels_per_scan_line as int;
    let ghost h_res = frame_buffer.h_resolution as int;
    let ghost v_res = frame_buffer.v_resolution as int;
    let ghost format = frame_buffer.pixel_format;
    let white = PixelColor::rgb(255, 255, 255);
    let h_resolution = frame_buffer.h_resolution;
    let v_resolution = frame_buffer.v_resolution;
    fill_rect(frame_buffer, 0, 0, h_resolution, v_resolution, &white);
    let green = PixelColor::rgb(0, 255, 0);
    assert forall|a: int, b: int|
        0 <= a < BOX_WIDTH as int && 0 <= b < BOX_HEIGHT as int implies #[trigger] frame_buffer.pixel_in_bounds(
        BOX_X + a,
        BOX_Y + b,
    ) by {
        assert(old(frame_buffer).pixel_in_bounds(BOX_X + a, BOX_Y + b));
    }
    fill_rect(frame_buffer, BOX_X, BOX_Y, BOX_WIDTH, BOX_HEIGHT, &green);
    let black = PixelColor::rgb(0, 0, 0);
    frame_buffer.write_ascii(font, (GREETING_X, GREETING_Y), GREETING, &black);
    proof {
        if ppsl >= 300 && h_res <= ppsl {
            assert forall|x: int, y: int, k: int|
                0 <= x < ppsl && 0 <= y && 0 <= k < 3 && 4 * (ppsl * y + x) + k < start.len() implies ({
                let b = #[trigger] pixel_byte(frame_buffer.frame_buffer@, ppsl, x, y, k);
                let in_cell = 50 <= x < 58 && 50 <= y < 66;
                let in_box = 100 <= x < 300 && 100 <= y < 200;
                let visible = x < h_res && y < v_res;
                &&& in_box ==> b == (if k == 1 {
                    255u8
                } else {
                    0u8
                })
                &&& !in_box && !in_cell && visible ==> b == 255
                &&& !in_box && !in_cell && !visible ==> b == pixel_byte(start, ppsl, x, y, k)
            }) by {
                boot_screen_pixels(
                    start,
                    ppsl,
                    h_res,
                    v_res,
                    glyph(font@, GREETING),
                    format,
                    x,
                    y,
                    k,
                );
            }
        }
    }
}

} // verus!
