use rasterizer::color::Color;
use rasterizer::framebuffer::Framebuffer;
use rasterizer::polygon::draw_polygon;
use rasterizer::polygon::fill_polygon;
use rasterizer::polygon::Point;
use rasterizer::polygon::PolygonError;

fn p(x: i64, y: i64) -> Point {
    Point { x, y }
}

#[test]
fn fill_triangle_scenario() {
    let mut fb = Framebuffer::new(10, 10);
    fb.set_background_color(0xFFFFFF);
    fb.clear();
    let tri = vec![p(2, 2), p(7, 2), p(2, 7)];
    let r = fill_polygon(&mut fb, &tri, Color::new(0, 255, 0), &vec![]);
    assert!(r.is_ok());
    assert_eq!(fb.get_point_color(3, 3), Some(0x00FF00));
    assert_eq!(fb.get_point_color(8, 8), Some(0xFFFFFF));
}

#[test]
fn fill_convex_polygon_paints_interior_not_exterior() {
    let mut fb = Framebuffer::new(10, 10);
    let square = vec![p(2, 2), p(7, 2), p(7, 7), p(2, 7)];
    let r = fill_polygon(&mut fb, &square, Color::new(0, 0, 255), &vec![]);
    assert!(r.is_ok());
    // Every pixel strictly inside the square is painted.
    for y in 3..=6i64 {
        for x in 3..=6i64 {
            assert_eq!(fb.get_point_color(x as usize, y as usize), Some(0x0000FF));
        }
    }
    // No pixel strictly outside the square is painted.
    for y in 0..10i64 {
        for x in 0..10i64 {
            if x < 2 || x > 7 || y < 2 || y > 7 {
                assert_eq!(fb.get_point_color(x as usize, y as usize), Some(0xFFFFFF));
            }
        }
    }
}

#[test]
fn fill_with_hole_leaves_hole_unpainted() {
    let mut fb = Framebuffer::new(10, 10);
    let outer = vec![p(1, 1), p(8, 1), p(8, 8), p(1, 8)];
    let hole = vec![p(3, 3), p(6, 3), p(6, 6), p(3, 6)];
    let r = fill_polygon(&mut fb, &outer, Color::new(255, 0, 0), &vec![hole]);
    assert!(r.is_ok());
    // On row 4 the edge set yields four crossings (1, 3, 6, 8); the pair
    // toggle paints [1,3] and [6,8] and skips the middle pair.
    assert_eq!(fb.get_point_color(2, 4), Some(0xFF0000));
    assert_eq!(fb.get_point_color(3, 4), Some(0xFF0000));
    assert_eq!(fb.get_point_color(4, 4), Some(0xFFFFFF));
    assert_eq!(fb.get_point_color(5, 4), Some(0xFFFFFF));
    assert_eq!(fb.get_point_color(6, 4), Some(0xFF0000));
    assert_eq!(fb.get_point_color(7, 4), Some(0xFF0000));
    // The hole interior stays unpainted on every row; the annulus is painted.
    assert_eq!(fb.get_point_color(4, 5), Some(0xFFFFFF));
    assert_eq!(fb.get_point_color(2, 5), Some(0xFF0000));
}

#[test]
fn fill_rejects_too_few_vertices() {
    let mut fb = Framebuffer::new(5, 5);
    let two = vec![p(0, 0), p(3, 3)];
    let r = fill_polygon(&mut fb, &two, Color::new(9, 9, 9), &vec![]);
    assert_eq!(r, Err(PolygonError::TooFewVertices));
    for y in 0..5 {
        for x in 0..5 {
            assert_eq!(fb.get_point_color(x, y), Some(0xFFFFFF));
        }
    }
}

#[test]
fn draw_rejects_too_few_vertices() {
    let mut fb = Framebuffer::new(5, 5);
    let two = vec![p(0, 0), p(3, 3)];
    let r = draw_polygon(&mut fb, &two, Color::new(9, 9, 9));
    assert_eq!(r, Err(PolygonError::TooFewVertices));
    for y in 0..5 {
        for x in 0..5 {
            assert_eq!(fb.get_point_color(x, y), Some(0xFFFFFF));
        }
    }
}

#[test]
fn draw_polygon_outlines_boundary() {
    let mut fb = Framebuffer::new(10, 10);
    let square = vec![p(2, 2), p(7, 2), p(7, 7), p(2, 7)];
    let r = draw_polygon(&mut fb, &square, Color::new(255, 255, 0));
    assert!(r.is_ok());
    // The boundary is painted...
    for x in 2..=7 {
        assert_eq!(fb.get_point_color(x, 2), Some(0xFFFF00));
        assert_eq!(fb.get_point_color(x, 7), Some(0xFFFF00));
    }
    for y in 2..=7 {
        assert_eq!(fb.get_point_color(2, y), Some(0xFFFF00));
        assert_eq!(fb.get_point_color(7, y), Some(0xFFFF00));
    }
    // ... and the interior and exterior are not.
    assert_eq!(fb.get_point_color(4, 4), Some(0xFFFFFF));
    assert_eq!(fb.get_point_color(0, 0), Some(0xFFFFFF));
}

#[test]
fn hole_outside_outer_vertical_extent_is_ignored_there() {
    let mut fb = Framebuffer::new(10, 10);
    let outer = vec![p(2, 2), p(7, 2), p(7, 6), p(2, 6)];
    // The hole strip extends above and below the outer loop's rows.
    let hole = vec![p(4, 0), p(6, 0), p(6, 8), p(4, 8)];
    fill_polygon(&mut fb, &outer, Color::new(255, 0, 0), &vec![hole]).unwrap();
    // Inside the outer rows, the hole splits the row into two spans.
    assert_eq!(fb.get_point_color(3, 4), Some(0xFF0000));
    assert_eq!(fb.get_point_color(5, 4), Some(0xFFFFFF));
    assert_eq!(fb.get_point_color(6, 4), Some(0xFF0000));
    // Rows outside the outer loop's extent are never scanned.
    assert_eq!(fb.get_point_color(5, 1), Some(0xFFFFFF));
    assert_eq!(fb.get_point_color(5, 7), Some(0xFFFFFF));
}

#[test]
fn repeated_vertex_is_accepted_and_fills_like_the_simple_loop() {
    let mut fb = Framebuffer::new(10, 10);
    let tri = vec![p(2, 2), p(2, 2), p(7, 2), p(2, 7)];
    fill_polygon(&mut fb, &tri, Color::new(0, 255, 0), &vec![]).unwrap();
    assert_eq!(fb.get_point_color(3, 3), Some(0x00FF00));
    assert_eq!(fb.get_point_color(8, 8), Some(0xFFFFFF));
}

#[test]
fn fill_sets_current_draw_color() {
    let mut fb = Framebuffer::new(10, 10);
    let tri = vec![p(1, 1), p(5, 1), p(1, 5)];
    fill_polygon(&mut fb, &tri, Color::new(16, 32, 48), &vec![]).unwrap();
    fb.point(9, 9);
    assert_eq!(fb.get_point_color(9, 9), Some(0x102030));
}
