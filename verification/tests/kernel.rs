use mikanos::fonts::{Font, FONT_SIZE, FONT_TABLE_SIZE};
use mikanos::graphics::{FrameBuffer, PixelFormat};
use mikanos::kernel::{boot_screen_fits, draw_boot_screen};

#[test]
fn boot_screen_layers_white_green_and_glyph() {
    let mut table = [0u8; FONT_TABLE_SIZE];
    table[65 * FONT_SIZE + 3] = 0b0100_0000; // row 3, column 1
    let data: &'static [u8; FONT_TABLE_SIZE] = Box::leak(Box::new(table));
    let font = Font::new(data);
    let ppsl = 320usize;
    let h = 310usize;
    let v = 210usize;
    let mut buf = vec![0x11u8; 4 * ppsl * v];
    let mut fb = FrameBuffer {
        frame_buffer: &mut buf[..],
        pixels_per_scan_line: ppsl,
        h_resolution: h,
        v_resolution: v,
        pixel_format: PixelFormat::PixelBGRResv8bitPerColor,
    };
    draw_boot_screen(&mut fb, &font);
    let px = |x: usize, y: usize| {
        let p = 4 * (ppsl * y + x);
        [buf[p], buf[p + 1], buf[p + 2], buf[p + 3]]
    };
    // visible, outside the box: white
    assert_eq!(px(0, 0), [255, 255, 255, 0x11]);
    assert_eq!(px(h - 1, v - 1), [255, 255, 255, 0x11]);
    // outside the visible area: untouched
    assert_eq!(px(h, 0), [0x11, 0x11, 0x11, 0x11]);
    assert_eq!(px(ppsl - 1, 5), [0x11, 0x11, 0x11, 0x11]);
    // inside the box: green
    assert_eq!(px(100, 100), [0, 255, 0, 0x11]);
    assert_eq!(px(299, 199), [0, 255, 0, 0x11]);
    assert_eq!(px(300, 199), [255, 255, 255, 0x11]);
    assert_eq!(px(299, 200), [255, 255, 255, 0x11]);
    // the glyph's one set pixel: black
    assert_eq!(px(51, 53), [0, 0, 0, 0x11]);
    assert_eq!(px(50, 53), [255, 255, 255, 0x11]);
    assert_eq!(px(51, 52), [255, 255, 255, 0x11]);
}

#[test]
fn boot_screen_fits_needs_box_and_screen() {
    let data: &'static [u8; FONT_TABLE_SIZE] = Box::leak(Box::new([0xFFu8; FONT_TABLE_SIZE]));
    let font = Font::new(data);
    let mut small = vec![0u8; 4 * 100 * 100];
    let fb = FrameBuffer {
        frame_buffer: &mut small[..],
        pixels_per_scan_line: 100,
        h_resolution: 100,
        v_resolution: 100,
        pixel_format: PixelFormat::PixelRGBResv8bitPerColor,
    };
    assert!(!boot_screen_fits(&fb, &font));
    let mut big = vec![0u8; 4 * 300 * 200];
    let fb = FrameBuffer {
        frame_buffer: &mut big[..],
        pixels_per_scan_line: 300,
        h_resolution: 300,
        v_resolution: 200,
        pixel_format: PixelFormat::PixelRGBResv8bitPerColor,
    };
    assert!(boot_screen_fits(&fb, &font));
    let mut big = vec![0u8; 4 * 300 * 200];
    let fb = FrameBuffer {
        frame_buffer: &mut big[..],
        pixels_per_scan_line: 300,
        h_resolution: 301,
        v_resolution: 200,
        pixel_format: PixelFormat::PixelRGBResv8bitPerColor,
    };
    assert!(!boot_screen_fits(&fb, &font));
}
