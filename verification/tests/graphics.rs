use mikanos::fonts::{Font, FONT_SIZE, FONT_TABLE_SIZE};
use mikanos::graphics::{FrameBuffer, FrameBufferConfig, PixelColor, PixelFormat};

fn leaked_font(table: [u8; FONT_TABLE_SIZE]) -> Font {
    let data: &'static [u8; FONT_TABLE_SIZE] = Box::leak(Box::new(table));
    Font::new(data)
}

#[test]
fn write_pixel_rgb_sets_three_bytes_in_order() {
    let mut buf = vec![7u8; 4 * 4 * 3];
    let mut fb = FrameBuffer {
        frame_buffer: &mut buf[..],
        pixels_per_scan_line: 4,
        h_resolution: 4,
        v_resolution: 3,
        pixel_format: PixelFormat::PixelRGBResv8bitPerColor,
    };
    fb.write_pixel((2, 1), &PixelColor::rgb(10, 20, 30));
    // pixel number 4 * 1 + 2 = 6, bytes 24..27
    for (i, b) in buf.iter().enumerate() {
        match i {
            24 => assert_eq!(*b, 10),
            25 => assert_eq!(*b, 20),
            26 => assert_eq!(*b, 30),
            _ => assert_eq!(*b, 7, "byte {} changed", i),
        }
    }
}

#[test]
fn write_pixel_bgr_swaps_red_and_blue() {
    let mut buf = vec![0u8; 16];
    let mut fb = FrameBuffer {
        frame_buffer: &mut buf[..],
        pixels_per_scan_line: 2,
        h_resolution: 2,
        v_resolution: 2,
        pixel_format: PixelFormat::PixelBGRResv8bitPerColor,
    };
    fb.write_pixel((1, 1), &PixelColor::rgb(1, 2, 3));
    assert_eq!(&buf[12..16], &[3, 2, 1, 0]);
    assert_eq!(&buf[0..12], &[0; 12]);
}

#[test]
fn rgb_and_bgr_build_the_same_colour() {
    let mut a = vec![0u8; 4];
    let mut b = vec![0u8; 4];
    let mut fa = FrameBuffer {
        frame_buffer: &mut a[..],
        pixels_per_scan_line: 1,
        h_resolution: 1,
        v_resolution: 1,
        pixel_format: PixelFormat::PixelRGBResv8bitPerColor,
    };
    fa.write_pixel((0, 0), &PixelColor::rgb(9, 8, 7));
    let mut fb = FrameBuffer {
        frame_buffer: &mut b[..],
        pixels_per_scan_line: 1,
        h_resolution: 1,
        v_resolution: 1,
        pixel_format: PixelFormat::PixelRGBResv8bitPerColor,
    };
    fb.write_pixel((0, 0), &PixelColor::bgr(7, 8, 9));
    assert_eq!(a, b);
    assert_eq!(a, vec![9, 8, 7, 0]);
}

#[test]
fn write_pixel_twice_is_once() {
    let mut once = vec![5u8; 32];
    let mut twice = vec![5u8; 32];
    let c = PixelColor::rgb(100, 110, 120);
    {
        let mut fb = FrameBuffer {
            frame_buffer: &mut once[..],
            pixels_per_scan_line: 4,
            h_resolution: 4,
            v_resolution: 2,
            pixel_format: PixelFormat::PixelRGBResv8bitPerColor,
        };
        fb.write_pixel((3, 0), &c);
    }
    {
        let mut fb = FrameBuffer {
            frame_buffer: &mut twice[..],
            pixels_per_scan_line: 4,
            h_resolution: 4,
            v_resolution: 2,
            pixel_format: PixelFormat::PixelRGBResv8bitPerColor,
        };
        fb.write_pixel((3, 0), &c);
        fb.write_pixel((3, 0), &c);
    }
    assert_eq!(once, twice);
}

#[test]
fn reserved_byte_is_never_written() {
    let mut buf = vec![0xEEu8; 8];
    let mut fb = FrameBuffer {
        frame_buffer: &mut buf[..],
        pixels_per_scan_line: 2,
        h_resolution: 2,
        v_resolution: 1,
        pixel_format: PixelFormat::PixelRGBResv8bitPerColor,
    };
    fb.write_pixel((0, 0), &PixelColor::rgb(0, 0, 0));
    fb.write_pixel((1, 0), &PixelColor::rgb(1, 1, 1));
    assert_eq!(buf, vec![0, 0, 0, 0xEE, 1, 1, 1, 0xEE]);
}

#[test]
fn from_config_copies_geometry() {
    let mut buf = vec![0u8; 64];
    let config = FrameBufferConfig {
        frame_buffer: 0x8000_0000,
        pixels_per_scan_line: 8,
        h_resolution: 4,
        v_resolution: 2,
        pixel_format: PixelFormat::PixelBGRResv8bitPerColor,
        size: 64,
    };
    let fb = FrameBuffer::from_config(&mut buf[..], &config);
    assert_eq!(fb.pixels_per_scan_line, 8);
    assert_eq!(fb.h_resolution, 4);
    assert_eq!(fb.v_resolution, 2);
    assert_eq!(fb.pixel_format, PixelFormat::PixelBGRResv8bitPerColor);
    assert_eq!(fb.frame_buffer.len(), 64);
}

#[test]
fn get_font_returns_the_glyph_rows() {
    let mut table = [0u8; FONT_TABLE_SIZE];
    for (i, b) in table.iter_mut().enumerate() {
        *b = (i % 251) as u8;
    }
    let font = leaked_font(table);
    assert_eq!(font.len(), FONT_TABLE_SIZE);
    for c in [0u8, 1, 65, 255] {
        let rows = font.get_font(c).expect("every byte has a glyph");
        assert_eq!(rows.len(), FONT_SIZE);
        let start = c as usize * FONT_SIZE;
        assert_eq!(rows, &table[start..start + FONT_SIZE]);
    }
}

#[test]
fn write_ascii_draws_set_bits_only() {
    let mut table = [0u8; FONT_TABLE_SIZE];
    // glyph of b'A': row 0 has the leftmost and rightmost columns set,
    // row 15 has column 3 set.
    table[65 * FONT_SIZE] = 0b1000_0001;
    table[65 * FONT_SIZE + 15] = 0b0001_0000;
    let font = leaked_font(table);
    let width = 10usize;
    let height = 20usize;
    let mut buf = vec![0u8; 4 * width * height];
    let mut fb = FrameBuffer {
        frame_buffer: &mut buf[..],
        pixels_per_scan_line: width,
        h_resolution: width,
        v_resolution: height,
        pixel_format: PixelFormat::PixelRGBResv8bitPerColor,
    };
    fb.write_ascii(&font, (1, 2), b'A', &PixelColor::rgb(200, 100, 50));
    let mut set = Vec::new();
    for p in 0..width * height {
        if buf[4 * p..4 * p + 4] != [0, 0, 0, 0] {
            assert_eq!(&buf[4 * p..4 * p + 4], &[200, 100, 50, 0]);
            set.push((p % width, p / width));
        }
    }
    assert_eq!(set, vec![(1, 2), (8, 2), (4, 17)]);
}

#[test]
fn blank_glyph_draws_nothing() {
    let font = leaked_font([0u8; FONT_TABLE_SIZE]);
    let mut buf = vec![3u8; 4 * 16 * 16];
    let before = buf.clone();
    let mut fb = FrameBuffer {
        frame_buffer: &mut buf[..],
        pixels_per_scan_line: 16,
        h_resolution: 16,
        v_resolution: 16,
        pixel_format: PixelFormat::PixelRGBResv8bitPerColor,
    };
    fb.write_ascii(&font, (0, 0), b'x', &PixelColor::rgb(1, 2, 3));
    assert_eq!(buf, before);
}

#[test]
fn drawing_order_of_one_colour_does_not_matter() {
    let c = PixelColor::rgb(4, 5, 6);
    let mut first = vec![0u8; 24];
    let mut second = vec![0u8; 24];
    {
        let mut fb = FrameBuffer {
            frame_buffer: &mut first[..],
            pixels_per_scan_line: 3,
            h_resolution: 3,
            v_resolution: 2,
            pixel_format: PixelFormat::PixelBGRResv8bitPerColor,
        };
        fb.write_pixel((0, 1), &c);
        fb.write_pixel((2, 0), &c);
    }
    {
        let mut fb = FrameBuffer {
            frame_buffer: &mut second[..],
            pixels_per_scan_line: 3,
            h_resolution: 3,
            v_resolution: 2,
            pixel_format: PixelFormat::PixelBGRResv8bitPerColor,
        };
        fb.write_pixel((2, 0), &c);
        fb.write_pixel((0, 1), &c);
    }
    assert_eq!(first, second);
}

#[test]
fn later_colour_wins() {
    let mut buf = vec![0u8; 8];
    let mut fb = FrameBuffer {
        frame_buffer: &mut buf[..],
        pixels_per_scan_line: 2,
        h_resolution: 2,
        v_resolution: 1,
        pixel_format: PixelFormat::PixelRGBResv8bitPerColor,
    };
    fb.write_pixel((1, 0), &PixelColor::rgb(1, 1, 1));
    fb.write_pixel((1, 0), &PixelColor::rgb(2, 3, 4));
    assert_eq!(buf, vec![0, 0, 0, 0, 2, 3, 4, 0]);
}

#[test]
fn pixel_fits_checks_the_colour_bytes() {
    let mut buf = vec![0u8; 4 * 5 + 3];
    let fb = FrameBuffer {
        frame_buffer: &mut buf[..],
        pixels_per_scan_line: 5,
        h_resolution: 5,
        v_resolution: 1,
        pixel_format: PixelFormat::PixelRGBResv8bitPerColor,
    };
    assert!(fb.pixel_fits(4, 0));
    assert!(fb.pixel_fits(0, 1)); // only its three colour bytes must fit
    assert!(!fb.pixel_fits(1, 1));
    assert!(!fb.pixel_fits(usize::MAX, 0));
    assert!(!fb.pixel_fits(0, usize::MAX));
}

#[test]
fn glyph_fits_looks_at_set_bits_only() {
    let mut table = [0u8; FONT_TABLE_SIZE];
    table[66 * FONT_SIZE] = 0b1000_0000; // glyph of b'B': one pixel at its corner
    let font = leaked_font(table);
    let mut buf = vec![0u8; 4 * 4];
    let fb = FrameBuffer {
        frame_buffer: &mut buf[..],
        pixels_per_scan_line: 4,
        h_resolution: 4,
        v_resolution: 1,
        pixel_format: PixelFormat::PixelRGBResv8bitPerColor,
    };
    assert!(fb.glyph_fits(&font, (3, 0), b'B'));
    assert!(!fb.glyph_fits(&font, (4, 0), b'B'));
    assert!(fb.glyph_fits(&font, (usize::MAX, usize::MAX), b'C'));
}

#[test]
fn glyphs_tile_the_table() {
    let mut table = [0u8; FONT_TABLE_SIZE];
    for (i, b) in table.iter_mut().enumerate() {
        *b = (i * 7 % 256) as u8;
    }
    let font = leaked_font(table);
    let tiled: Vec<u8> = (0..=255u8)
        .flat_map(|c| font.get_font(c).unwrap().iter().copied())
        .collect();
    assert_eq!(tiled, table.to_vec());
}
