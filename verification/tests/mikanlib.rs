use mikanos::mikanlib::{FrameBuffer, FrameBufferConfig, PixelColor, PixelFormat};

#[test]
fn mikanlib_write_pixel_rgb() {
    let mut buf = vec![0u8; 4 * 3 * 2];
    let mut fb = FrameBuffer {
        frame_buffer: &mut buf[..],
        pixels_per_scan_line: 3,
        h_resolution: 3,
        v_resolution: 2,
        pixel_format: PixelFormat::PixelRGBResv8bitPerColor,
    };
    fb.write_pixel(1, 1, &PixelColor::rgb(11, 22, 33));
    // pixel 3 * 1 + 1 = 4, bytes 16..20
    let mut expected = vec![0u8; 24];
    expected[16] = 11;
    expected[17] = 22;
    expected[18] = 33;
    assert_eq!(buf, expected);
}

#[test]
fn mikanlib_write_pixel_bgr() {
    let mut buf = vec![9u8; 8];
    let mut fb = FrameBuffer {
        frame_buffer: &mut buf[..],
        pixels_per_scan_line: 2,
        h_resolution: 2,
        v_resolution: 1,
        pixel_format: PixelFormat::PixelBGRResv8bitPerColor,
    };
    fb.write_pixel(0, 0, &PixelColor::bgr(1, 2, 3));
    assert_eq!(buf, vec![1, 2, 3, 9, 9, 9, 9, 9]);
}

#[test]
fn mikanlib_from_config() {
    let mut buf = vec![0u8; 32];
    let config = FrameBufferConfig {
        frame_buffer: 0x1000,
        pixels_per_scan_line: 4,
        h_resolution: 3,
        v_resolution: 2,
        pixel_format: PixelFormat::PixelRGBResv8bitPerColor,
        size: 32,
    };
    let mut fb = FrameBuffer::from_config(&mut buf[..], &config);
    assert_eq!(fb.pixels_per_scan_line, 4);
    assert_eq!(fb.h_resolution, 3);
    assert_eq!(fb.v_resolution, 2);
    fb.write_pixel(3, 1, &PixelColor::rgb(5, 6, 7));
    assert_eq!(&buf[28..32], &[5, 6, 7, 0]);
}
