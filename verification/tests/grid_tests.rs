use rasterizer::framebuffer::Framebuffer;

#[test]
fn new_grid_is_white() {
    let fb = Framebuffer::new(4, 3);
    assert_eq!(fb.width, 4);
    assert_eq!(fb.height, 3);
    for y in 0..3 {
        for x in 0..4 {
            assert_eq!(fb.get_point_color(x, y), Some(0xFFFFFF));
        }
    }
}

#[test]
fn clear_paints_background_everywhere_and_out_of_bounds_is_absent() {
    let mut fb = Framebuffer::new(5, 4);
    fb.set_background_color(0xFF0000);
    fb.clear();
    for y in 0..4 {
        for x in 0..5 {
            assert_eq!(fb.get_point_color(x, y), Some(0xFF0000));
        }
    }
    assert_eq!(fb.get_point_color(5, 0), None);
    assert_eq!(fb.get_point_color(0, 4), None);
    assert_eq!(fb.get_point_color(100, 100), None);
}

#[test]
fn color_setters_mask_to_24_bits() {
    let mut fb = Framebuffer::new(2, 2);
    fb.set_background_color(0xFFFEF5E7);
    fb.clear();
    assert_eq!(fb.get_point_color(0, 0), Some(0xFEF5E7));
    fb.set_current_color(0xAA123456);
    fb.point(1, 1);
    assert_eq!(fb.get_point_color(1, 1), Some(0x123456));
}

#[test]
fn point_writes_draw_color_in_bounds() {
    let mut fb = Framebuffer::new(3, 3);
    fb.set_current_color(0x00FF00);
    fb.point(2, 1);
    assert_eq!(fb.get_point_color(2, 1), Some(0x00FF00));
    assert_eq!(fb.get_point_color(1, 2), Some(0xFFFFFF));
}

#[test]
fn point_out_of_bounds_is_clipped() {
    let mut fb = Framebuffer::new(3, 3);
    fb.set_current_color(0x00FF00);
    fb.point(-1, 0);
    fb.point(0, -1);
    fb.point(3, 0);
    fb.point(0, 3);
    for y in 0..3 {
        for x in 0..3 {
            assert_eq!(fb.get_point_color(x, y), Some(0xFFFFFF));
        }
    }
}

#[test]
fn zero_length_line_paints_exactly_one_pixel() {
    let mut fb = Framebuffer::new(8, 8);
    fb.set_current_color(0x0000FF);
    fb.line(4, 5, 4, 5);
    for y in 0..8 {
        for x in 0..8 {
            let expected = if (x, y) == (4, 5) { 0x0000FF } else { 0xFFFFFF };
            assert_eq!(fb.get_point_color(x, y), Some(expected));
        }
    }
}

#[test]
fn horizontal_line_is_symmetric_in_endpoint_order() {
    let mut a = Framebuffer::new(10, 4);
    let mut b = Framebuffer::new(10, 4);
    a.set_current_color(0x123456);
    b.set_current_color(0x123456);
    a.line(2, 1, 8, 1);
    b.line(8, 1, 2, 1);
    for y in 0..4 {
        for x in 0..10 {
            assert_eq!(a.get_point_color(x, y), b.get_point_color(x, y));
        }
    }
    for x in 2..=8 {
        assert_eq!(a.get_point_color(x, 1), Some(0x123456));
    }
    assert_eq!(a.get_point_color(1, 1), Some(0xFFFFFF));
    assert_eq!(a.get_point_color(9, 1), Some(0xFFFFFF));
}

#[test]
fn vertical_line_is_symmetric_in_endpoint_order() {
    let mut a = Framebuffer::new(4, 10);
    let mut b = Framebuffer::new(4, 10);
    a.set_current_color(0x654321);
    b.set_current_color(0x654321);
    a.line(2, 1, 2, 7);
    b.line(2, 7, 2, 1);
    for y in 0..10 {
        for x in 0..4 {
            assert_eq!(a.get_point_color(x, y), b.get_point_color(x, y));
        }
    }
    for y in 1..=7 {
        assert_eq!(a.get_point_color(2, y), Some(0x654321));
    }
}

#[test]
fn line_outside_grid_is_clipped_per_pixel() {
    let mut fb = Framebuffer::new(10, 5);
    fb.set_current_color(0x00FF00);
    fb.line(-5, 2, 20, 2);
    for y in 0..5 {
        for x in 0..10 {
            let expected = if y == 2 { 0x00FF00 } else { 0xFFFFFF };
            assert_eq!(fb.get_point_color(x, y), Some(expected));
        }
    }
}

#[test]
fn diagonal_line_connects_endpoints() {
    let mut fb = Framebuffer::new(6, 6);
    fb.set_current_color(0xFF00FF);
    fb.line(0, 0, 5, 5);
    for i in 0..6 {
        assert_eq!(fb.get_point_color(i, i), Some(0xFF00FF));
    }
    assert_eq!(fb.get_point_color(0, 1), Some(0xFFFFFF));
}

#[test]
fn steep_line_pixel_set_depends_on_endpoint_order() {
    // The error-accumulation stepper rounds differently in the two
    // directions, so general segments are not symmetric in endpoint order.
    let mut a = Framebuffer::new(6, 3);
    let mut b = Framebuffer::new(6, 3);
    a.set_current_color(0x0000FF);
    b.set_current_color(0x0000FF);
    a.line(0, 0, 4, 1);
    b.line(4, 1, 0, 0);
    assert_eq!(a.get_point_color(2, 0), Some(0x0000FF));
    assert_eq!(a.get_point_color(2, 1), Some(0xFFFFFF));
    assert_eq!(b.get_point_color(2, 0), Some(0xFFFFFF));
    assert_eq!(b.get_point_color(2, 1), Some(0x0000FF));
}
