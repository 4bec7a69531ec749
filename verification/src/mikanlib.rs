//! The frame-buffer interface shared by the boot loader and the kernel: the
//! configuration that the boot loader hands over, and pixel writes with
//! 64-bit coordinates.

use vstd::prelude::*;
use crate::raster::{paint, pixel_index, lemma_paint_one};

verus! {

/// Order in which a frame buffer stores the colour channels of a pixel.
#[derive(Clone, Copy, PartialEq, Eq, Debug)]
pub enum PixelFormat {
    PixelRGBResv8bitPerColor,
    PixelBGRResv8bitPerColor,
}

/// What the boot loader tells the kernel about the frame buffer: where it
/// starts (a physical address), its geometry and format, and its size in
/// bytes.
pub struct FrameBufferConfig {
    pub frame_buffer: usize,
    pub pixels_per_scan_line: u64,
    pub h_resolution: u64,
    pub v_resolution: u64,
    pub pixel_format: PixelFormat,
    pub size: u64,
}

/// A linear frame buffer: `pixels_per_scan_line` pixels per row, four bytes
/// per pixel, of which `h_resolution` by `v_resolution` are visible.
pub struct FrameBuffer<'a> {
    pub frame_buffer: &'a mut [u8],
    pub pixels_per_scan_line: u64,
    pub h_resolution: u64,
    pub v_resolution: u64,
    pub pixel_format: PixelFormat,
}

/// An 8-bit-per-channel colour.
pub struct PixelColor {
    r: u8,
    g: u8,
    b: u8,
}

impl View for PixelColor {
    /// The colour as `(red, green, blue)`.
    type V = (u8, u8, u8);

    closed spec fn view(&self) -> (u8, u8, u8) {
        (self.r, self.g, self.b)
    }
}

impl PixelColor {
    /// The colour with the given red, green and blue channels.
    pub fn rgb(r: u8, g: u8, b: u8) -> (c: Self)
        ensures
            c@ == (r, g, b),
    {
        Self { r, g, b }
    }

    /// The colour with the given blue, green and red channels.
    pub fn bgr(b: u8, g: u8, r: u8) -> (c: Self)
        ensures
            c@ == (r, g, b),
    {
        Self { r, g, b }
    }
}

/// The three colour bytes of `color`, `(red, green, blue)`, in the order in
/// which a buffer of format `format` stores them.
pub open spec fn memory_order(format: PixelFormat, color: (u8, u8, u8)) -> (u8, u8, u8) {
    match format {
        PixelFormat::PixelRGBResv8bitPerColor => color,
        PixelFormat::PixelBGRResv8bitPerColor => (color.2, color.1, color.0),
    }
}

impl<'a> FrameBuffer<'a> {
    /// The frame buffer that `config` describes, over the `config.size`
    /// bytes `frame_buffer` that start at `config.frame_buffer`.
    pub fn from_config(frame_buffer: &'a mut [u8], config: &FrameBufferConfig) -> (fb: Self)
        requires
            old(frame_buffer)@.len() == config.size,
        ensures
            fb.frame_buffer@ == old(frame_buffer)@,
            fb.pixels_per_scan_line == config.pixels_per_scan_line,
            fb.h_resolution == config.h_resolution,
            fb.v_resolution == config.v_resolution,
            fb.pixel_format == config.pixel_format,
    {
        Self {
            frame_buffer,
            pixels_per_scan_line: config.pixels_per_scan_line,
            h_resolution: config.h_resolution,
            v_resolution: config.v_resolution,
            pixel_format: config.pixel_format,
        }
    }

    /// Whether the colour bytes of the pixel at `(x, y)` lie inside the buffer.
    pub open spec fn pixel_in_bounds(&self, x: int, y: int) -> bool {
        4 * pixel_index(self.pixels_per_scan_line as int, x, y) + 3 <= self.frame_buffer@.len()
    }

    /// Sets the pixel at `(x, y)`, that is pixel number
    /// `pixels_per_scan_line * y + x`, to `pixel_color`.
    pub fn write_pixel(&mut self, x: u64, y: u64, pixel_color: &PixelColor)
        requires
            old(self).pixel_in_bounds(x as int, y as int),
        ensures
            final(self).frame_buffer@ == paint(
                old(self).frame_buffer@,
                |p: int| p == pixel_index(old(self).pixels_per_scan_line as int, x as int, y as int),
                memory_order(old(self).pixel_format, pixel_color@),
            ),
            final(self).pixels_per_scan_line == old(self).pixels_per_scan_line,
            final(self).h_resolution == old(self).h_resolution,
            final(self).v_resolution == old(self).v_resolution,
            final(self).pixel_format == old(self).pixel_format,
            final(self).frame_buffer@.len() == old(self).frame_buffer@.len(),
            ({
                let base = 4 * (old(self).pixels_per_scan_line * y as int + x as int);
                let before = old(self).frame_buffer@;
                let after = final(self).frame_buffer@;
                &&& forall|i: int|
                    0 <= i < before.len() && !(base <= i < base + 3) ==> #[trigger] after[i] == before[i]
                &&& after[base + 1] == pixel_color@.1
                &&& old(self).pixel_format == PixelFormat::PixelRGBResv8bitPerColor ==> after[base]
                    == pixel_color@.0 && after[base + 2] == pixel_color@.2
                &&& old(self).pixel_format == PixelFormat::PixelBGRResv8bitPerColor ==> after[base]
                    == pixel_color@.2 && after[base + 2] == pixel_color@.0
            }),
    {
        proof {
            let ghost ppsl = self.pixels_per_scan_line;
            assert(0 <= ppsl * y) by (nonlinear_arith);
            assert(self.frame_buffer@.len() == self.frame_buffer.len());
        }
        let pixel_position = self.pixels_per_scan_line * y + x;
        let base = (4 * pixel_position) as usize;
        proof {
            lemma_paint_one(
                self.frame_buffer@,
                pixel_position as int,
                memory_order(self.pixel_format, pixel_color@),
            );
        }
        match self.pixel_format {
            PixelFormat::PixelRGBResv8bitPerColor => {
                self.frame_buffer[base] = pixel_color.r;
                self.frame_buffer[base + 1] = pixel_color.g;
                self.frame_buffer[base + 2] = pixel_color.b;
            },
            PixelFormat::PixelBGRResv8bitPerColor => {
                self.frame_buffer[base] = pixel_color.b;
                self.frame_buffer[base + 1] = pixel_color.g;
                self.frame_buffer[base + 2] = pixel_color.r;
            },
        }
    }
}

} // verus!
