use kernel_common::hardware::{
    write_pixel_bgr, write_pixel_rgb, FrameBufferConfig, PixelFormat,
};

#[test]
fn rgb_writer_stores_red_first() {
    let mut frame = vec![0u8; 4 * 4 * 3];
    write_pixel_rgb(4, 4, 3, &mut frame, 1, 2, [10, 20, 30]);
    let at = (1 + 2 * 4) * 4;
    assert_eq!(&frame[at..at + 4], &[10, 20, 30, 0]);
    for (i, byte) in frame.iter().enumerate() {
        if i < at || i >= at + 3 {
            assert_eq!(*byte, 0);
        }
    }
}

#[test]
fn bgr_writer_stores_blue_first() {
    let mut frame = vec![0xffu8; 4 * 4 * 3];
    write_pixel_bgr(4, 4, 3, &mut frame, 3, 0, [10, 20, 30]);
    let at = 3 * 4;
    assert_eq!(&frame[at..at + 4], &[30, 20, 10, 0xff]);
    for (i, byte) in frame.iter().enumerate() {
        if i < at || i >= at + 3 {
            assert_eq!(*byte, 0xff);
        }
    }
}

#[test]
fn rows_are_a_scan_line_apart_not_a_width_apart() {
    // 5 pixels per scan line, 4 of them visible
    let mut frame = vec![0u8; 5 * 4 * 2];
    write_pixel_rgb(5, 4, 2, &mut frame, 0, 1, [1, 2, 3]);
    assert_eq!(&frame[20..23], &[1, 2, 3]);
    assert_eq!(&frame[16..20], &[0, 0, 0, 0]);
}

#[test]
fn last_pixel_needs_three_bytes_only() {
    let mut frame = vec![0u8; 4 + 3];
    write_pixel_rgb(2, 2, 1, &mut frame, 1, 0, [7, 8, 9]);
    assert_eq!(frame, vec![0, 0, 0, 0, 7, 8, 9]);
}

#[test]
fn config_reports_its_resolution() {
    let config = FrameBufferConfig::new(0xb8000, 1024, 800, 600, PixelFormat::RGBReserved8BitParColor);
    assert_eq!(config.get_horizontal_resolution(), 800);
    assert_eq!(config.get_vertical_resolution(), 600);
}

#[test]
fn rgb_config_writes_red_first_without_init() {
    let mut config = FrameBufferConfig::new(0, 2, 2, 2, PixelFormat::RGBReserved8BitParColor);
    let mut frame = vec![0u8; 2 * 2 * 4];
    config.write_pixel(&mut frame, 1, 1, [1, 2, 3]);
    assert_eq!(&frame[12..16], &[1, 2, 3, 0]);
}

#[test]
fn rgb_config_stores_the_colour_in_the_order_given() {
    let mut config = FrameBufferConfig::new(0, 4, 4, 4, PixelFormat::RGBReserved8BitParColor);
    let mut frame = vec![0u8; 64];
    config.write_pixel(&mut frame, 1, 2, [0x11, 0x22, 0x33]);
    assert_eq!(&frame[36..39], &[0x11, 0x22, 0x33]);
}

#[test]
fn bgr_config_writes_blue_first_without_init() {
    let mut config = FrameBufferConfig::new(0, 2, 2, 2, PixelFormat::BGRReserved8BitParColor);
    let mut frame = vec![0u8; 2 * 2 * 4];
    config.write_pixel(&mut frame, 1, 1, [1, 2, 3]);
    assert_eq!(&frame[12..16], &[3, 2, 1, 0]);
}

#[test]
fn init_changes_nothing_after_new() {
    let mut plain = FrameBufferConfig::new(0x1000, 3, 3, 2, PixelFormat::RGBReserved8BitParColor);
    let mut initialised =
        FrameBufferConfig::new(0x1000, 3, 3, 2, PixelFormat::RGBReserved8BitParColor);
    initialised.init();
    assert_eq!(format!("{:?}", initialised), format!("{:?}", plain));
    initialised.init();
    assert_eq!(format!("{:?}", initialised), format!("{:?}", plain));
    let mut first = vec![0u8; 3 * 2 * 4];
    let mut second = vec![0u8; 3 * 2 * 4];
    plain.write_pixel(&mut first, 2, 1, [9, 8, 7]);
    initialised.write_pixel(&mut second, 2, 1, [9, 8, 7]);
    assert_eq!(first, second);
}

#[test]
fn initialised_rgb_config_writes_red_first() {
    let mut config = FrameBufferConfig::new(0, 2, 2, 2, PixelFormat::RGBReserved8BitParColor);
    config.init();
    let mut frame = vec![0u8; 2 * 2 * 4];
    config.write_pixel(&mut frame, 1, 1, [1, 2, 3]);
    assert_eq!(&frame[12..16], &[1, 2, 3, 0]);
    assert_eq!(&frame[..12], &[0u8; 12]);
}

#[test]
fn initialised_bgr_config_writes_blue_first() {
    let mut config = FrameBufferConfig::new(0, 2, 2, 2, PixelFormat::BGRReserved8BitParColor);
    config.init();
    let mut frame = vec![0u8; 2 * 2 * 4];
    config.write_pixel(&mut frame, 0, 1, [1, 2, 3]);
    assert_eq!(&frame[8..12], &[3, 2, 1, 0]);
}

#[test]
fn heap_clone_copies_every_field() {
    let mut source = FrameBufferConfig::new(0x1000, 3, 3, 2, PixelFormat::RGBReserved8BitParColor);
    source.init();
    let mut copy = FrameBufferConfig::new(0, 1, 1, 1, PixelFormat::BGRReserved8BitParColor);
    source.heap_clone(&mut copy);
    assert_eq!(copy.get_horizontal_resolution(), 3);
    assert_eq!(copy.get_vertical_resolution(), 2);
    let mut frame = vec![0u8; 3 * 2 * 4];
    copy.write_pixel(&mut frame, 2, 1, [1, 2, 3]);
    // three pixels per scan line and red first, as in the source
    assert_eq!(&frame[20..24], &[1, 2, 3, 0]);
    assert_eq!(format!("{:?}", copy), format!("{:?}", source));
}
