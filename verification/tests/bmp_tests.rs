use rasterizer::bmp::write_bmp_header;
use rasterizer::bmp::write_pixel_data;
use rasterizer::framebuffer::Framebuffer;

fn le4_at(b: &[u8], off: usize) -> u32 {
    (b[off] as u32) | ((b[off + 1] as u32) << 8) | ((b[off + 2] as u32) << 16) | ((b[off + 3]
        as u32) << 24)
}

fn le2_at(b: &[u8], off: usize) -> u16 {
    (b[off] as u16) | ((b[off + 1] as u16) << 8)
}

#[test]
fn header_has_exact_bytes_for_ten_by_ten() {
    let h = write_bmp_header(10, 10);
    let expected: Vec<u8> = vec![
        0x42, 0x4D, // "BM"
        0x62, 0x01, 0x00, 0x00, // file size 354
        0x00, 0x00, 0x00, 0x00, // reserved
        0x36, 0x00, 0x00, 0x00, // pixel data offset 54
        0x28, 0x00, 0x00, 0x00, // info header size 40
        0x0A, 0x00, 0x00, 0x00, // width 10
        0x0A, 0x00, 0x00, 0x00, // height 10
        0x01, 0x00, // one color plane
        0x18, 0x00, // 24 bits per pixel
        0x00, 0x00, 0x00, 0x00, // no compression
        0x2C, 0x01, 0x00, 0x00, // image data size 300
        0x00, 0x00, 0x00, 0x00, // x resolution
        0x00, 0x00, 0x00, 0x00, // y resolution
        0x00, 0x00, 0x00, 0x00, // palette size
        0x00, 0x00, 0x00, 0x00, // important colors
    ];
    assert_eq!(h, expected);
}

#[test]
fn pixel_data_is_bottom_to_top_bgr() {
    let mut fb = Framebuffer::new(2, 2);
    fb.set_current_color(0x112233);
    fb.point(0, 0);
    fb.set_current_color(0x445566);
    fb.point(1, 0);
    fb.set_current_color(0x778899);
    fb.point(0, 1);
    fb.set_current_color(0xAABBCC);
    fb.point(1, 1);
    let bytes = fb.render_buffer();
    assert_eq!(bytes.len(), 54 + 12);
    let data = &bytes[54..];
    // Bottom row (y == 1) first, each pixel as B, G, R.
    assert_eq!(&data[0..3], &[0x99, 0x88, 0x77]);
    assert_eq!(&data[3..6], &[0xCC, 0xBB, 0xAA]);
    // Top row (y == 0) last.
    assert_eq!(&data[6..9], &[0x33, 0x22, 0x11]);
    assert_eq!(&data[9..12], &[0x66, 0x55, 0x44]);
}

#[test]
fn export_round_trip_recovers_every_pixel_and_header_fields() {
    let mut fb = Framebuffer::new(5, 4);
    for y in 0..4 {
        for x in 0..5 {
            fb.set_current_color((x as u32) * 0x010203 + (y as u32) * 0x030201);
            fb.point(x as isize, y as isize);
        }
    }
    let bytes = fb.render_buffer();
    assert_eq!(&bytes[0..2], b"BM");
    assert_eq!(le4_at(&bytes, 2), 54 + 5 * 4 * 3);
    assert_eq!(le4_at(&bytes, 10), 54);
    assert_eq!(le4_at(&bytes, 14), 40);
    assert_eq!(le4_at(&bytes, 18), 5);
    assert_eq!(le4_at(&bytes, 22), 4);
    assert_eq!(le2_at(&bytes, 26), 1);
    assert_eq!(le2_at(&bytes, 28), 24);
    assert_eq!(le4_at(&bytes, 30), 0);
    assert_eq!(le4_at(&bytes, 34), 5 * 4 * 3);
    let (w, h) = (le4_at(&bytes, 18) as usize, le4_at(&bytes, 22) as usize);
    for y in 0..h {
        for x in 0..w {
            let off = 54 + 3 * ((h - 1 - y) * w + x);
            let packed = (bytes[off] as u32) | ((bytes[off + 1] as u32) << 8) | ((bytes[off + 2]
                as u32) << 16);
            assert_eq!(fb.get_point_color(x, y), Some(packed));
        }
    }
}

#[test]
fn pixel_data_matches_grid_contents() {
    let fb = Framebuffer::new(3, 1);
    let data = write_pixel_data(&vec![0x010203, 0x040506, 0x070809], 3, 1);
    assert_eq!(data, vec![0x03, 0x02, 0x01, 0x06, 0x05, 0x04, 0x09, 0x08, 0x07]);
    let full = fb.render_buffer();
    assert_eq!(full.len(), 54 + 9);
}
