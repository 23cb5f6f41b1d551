//! Polygon outlining and scanline filling.

use vstd::prelude::*;

use crate::bresenham::cell_at;
use crate::bresenham::line_points;
use crate::color::packed;
use crate::color::Color;
use crate::framebuffer::Framebuffer;
use crate::scanline::edge_view;
use crate::scanline::edges_ok;
use crate::scanline::edges_view;
use crate::scanline::fill_scanline;
use crate::scanline::in_spans;
use crate::scanline::row_crossings;
use crate::scanline::sort_ints;

verus! {

/// A polygon vertex with integer coordinates. Coordinates may be negative
/// or lie outside any grid; drawing clips per pixel.
#[derive(Clone, Copy, Debug, PartialEq, Eq, Structural)]
pub struct Point {
    pub x: i64,
    pub y: i64,
}

/// The spec view of a vertex.
pub open spec fn pt(p: Point) -> (int, int) {
    (p.x as int, p.y as int)
}

/// The spec view of a vertex list.
pub open spec fn pts_of(l: Seq<Point>) -> Seq<(int, int)> {
    l.map_values(|p: Point| pt(p))
}

/// The spec view of a hole-loop list.
pub open spec fn holes_pts(hs: Seq<Vec<Point>>) -> Seq<Seq<(int, int)>> {
    hs.map_values(|h: Vec<Point>| pts_of(h@))
}

/// The vertex lies in the coordinate range the fill arithmetic accepts.
pub open spec fn vertex_ok(p: Point) -> bool {
    &&& -0x2000_0000 <= p.x <= 0x2000_0000
    &&& -0x2000_0000 <= p.y <= 0x2000_0000
}

/// Every vertex of the loop is in range.
pub open spec fn loop_ok(l: Seq<Point>) -> bool {
    forall|i: int| 0 <= i < l.len() ==> vertex_ok(#[trigger] l[i])
}

/// Every vertex of every hole loop is in range.
pub open spec fn holes_ok(hs: Seq<Vec<Point>>) -> bool {
    forall|i: int| 0 <= i < hs.len() ==> loop_ok(#[trigger] hs[i]@)
}

/// The directed edge from vertex `i` of a closed loop to its successor,
/// wrapping from the last vertex back to the first.
pub open spec fn loop_edge(l: Seq<(int, int)>, i: int) -> (int, int, int, int) {
    let j = if i + 1 == l.len() {
        0
    } else {
        i + 1
    };
    (l[i].0, l[i].1, l[j].0, l[j].1)
}

/// All edges of one closed loop, in vertex order.
pub open spec fn loop_edges(l: Seq<(int, int)>) -> Seq<(int, int, int, int)> {
    Seq::new(l.len(), |i: int| loop_edge(l, i))
}

/// The edges of all hole loops, flattened in loop order.
pub open spec fn holes_edges(hs: Seq<Seq<(int, int)>>) -> Seq<(int, int, int, int)>
    decreases hs.len(),
{
    if hs.len() == 0 {
        Seq::empty()
    } else {
        holes_edges(hs.drop_last()) + loop_edges(hs.last())
    }
}

/// The combined edge list of a fill: the outer loop's edges followed by
/// each hole loop's edges.
pub open spec fn fill_edges(outer: Seq<(int, int)>, holes: Seq<Seq<(int, int)>>) -> Seq<
    (int, int, int, int),
> {
    loop_edges(outer) + holes_edges(holes)
}

/// The pixel set of one edge drawn as a segment.
pub open spec fn seg_points(e: (int, int, int, int)) -> Seq<(int, int)> {
    line_points(e.0, e.1, e.2, e.3)
}

/// Whether some boundary segment of the loop paints `(x, y)`.
pub open spec fn outline_covers(vs: Seq<(int, int)>, x: int, y: int) -> bool {
    exists|i: int|
        0 <= i < vs.len() && seg_points(#[trigger] loop_edges(vs)[i]).contains((x, y))
}

/// Like `outline_covers`, over the first `n` edges only.
spec fn outline_covers_upto(vs: Seq<(int, int)>, x: int, y: int, n: int) -> bool {
    exists|i: int|
        0 <= i < n && i < vs.len() && seg_points(#[trigger] loop_edges(vs)[i]).contains((x, y))
}

/// The smallest y among the loop's vertices.
pub open spec fn loop_min_y(l: Seq<(int, int)>) -> int
    recommends
        l.len() >= 1,
    decreases l.len(),
{
    if l.len() <= 1 {
        l[0].1
    } else {
        vstd::math::min(loop_min_y(l.drop_last()), l.last().1)
    }
}

/// The largest y among the loop's vertices.
pub open spec fn loop_max_y(l: Seq<(int, int)>) -> int
    recommends
        l.len() >= 1,
    decreases l.len(),
{
    if l.len() <= 1 {
        l[0].1
    } else {
        vstd::math::max(loop_max_y(l.drop_last()), l.last().1)
    }
}

/// The vertical extent is never empty.
proof fn lemma_loop_min_le_max(l: Seq<(int, int)>)
    requires
        l.len() >= 1,
    ensures
        loop_min_y(l) <= loop_max_y(l),
    decreases l.len(),
{
    if l.len() > 1 {
        lemma_loop_min_le_max(l.drop_last());
    }
}

/// Whether the scanline fill of `outer` with the hole loops `holes` paints
/// `(x, y)`: the row lies in the outer loop's vertical extent, and the
/// column lies in a painted span of the row's sorted crossings over the
/// combined edge list.
pub open spec fn fill_covers(
    outer: Seq<(int, int)>,
    holes: Seq<Seq<(int, int)>>,
    x: int,
    y: int,
) -> bool {
    &&& loop_min_y(outer) <= y <= loop_max_y(outer)
    &&& in_spans(sort_ints(row_crossings(fill_edges(outer, holes), y)), x)
}

/// Why a polygon operation declined to draw.
#[derive(Clone, Copy, Debug, PartialEq, Eq, Structural)]
pub enum PolygonError {
    /// The outer loop has fewer than three vertices.
    TooFewVertices,
}

/// Build the combined executable edge list of the outer loop and holes.
#[verifier::loop_isolation(false)]
fn build_edges(vertices: &Vec<Point>, holes: &Vec<Vec<Point>>) -> (edges: Vec<(i64, i64, i64, i64)>)
    requires
        loop_ok(vertices@),
        holes_ok(holes@),
    ensures
        edges_view(edges@) == fill_edges(pts_of(vertices@), holes_pts(holes@)),
        edges_ok(edges_view(edges@)),
{
    let ghost vs = pts_of(vertices@);
    let mut edges: Vec<(i64, i64, i64, i64)> = Vec::new();
    let n = vertices.len();
    let mut i: usize = 0;
    while i < n
        invariant
            i <= n,
            edges_view(edges@) == loop_edges(vs).take(i as int),
            edges_ok(edges_view(edges@)),
        decreases n - i,
    {
        let next = if i + 1 == n {
            0
        } else {
            i + 1
        };
        let a = vertices[i];
        let b = vertices[next];
        edges.push((a.x, a.y, b.x, b.y));
        proof {
            assert(edge_view((a.x, a.y, b.x, b.y)) == loop_edge(vs, i as int));
            assert(edges_view(edges@) =~= loop_edges(vs).take(i as int + 1));
        }
        i = i + 1;
    }
    proof {
        assert(loop_edges(vs).take(n as int) =~= loop_edges(vs));
        assert(holes_pts(holes@).take(0) =~= Seq::<Seq<(int, int)>>::empty());
        assert(fill_edges(vs, holes_pts(holes@).take(0)) =~= loop_edges(vs));
    }
    let mut k: usize = 0;
    while k < holes.len()
        invariant
            k <= holes@.len(),
            edges_view(edges@) == fill_edges(vs, holes_pts(holes@).take(k as int)),
            edges_ok(edges_view(edges@)),
        decreases holes@.len() - k,
    {
        let hole = &holes[k];
        let ghost hs = pts_of(hole@);
        proof {
            assert(loop_ok(holes@[k as int]@));
        }
        let m = hole.len();
        let mut j: usize = 0;
        while j < m
            invariant
                j <= m,
                m == hole@.len(),
                edges_view(edges@) == fill_edges(vs, holes_pts(holes@).take(k as int))
                    + loop_edges(hs).take(j as int),
                edges_ok(edges_view(edges@)),
            decreases m - j,
        {
            let next = if j + 1 == m {
                0
            } else {
                j + 1
            };
            let a = hole[j];
            let b = hole[next];
            edges.push((a.x, a.y, b.x, b.y));
            proof {
                assert(hs.len() == m);
                assert(a == hole@[j as int] && hs[j as int] == pt(a));
                assert(edge_view((a.x, a.y, b.x, b.y)) == loop_edge(hs, j as int));
                let fe = fill_edges(vs, holes_pts(holes@).take(k as int));
                let prior = fe + loop_edges(hs).take(j as int);
                assert(edges_view(edges@).len() == prior.len() + 1);
                assert forall|idx: int| 0 <= idx < edges_view(edges@).len() implies edges_view(
                    edges@,
                )[idx] == (fe + loop_edges(hs).take(j as int + 1))[idx] by {
                    if idx < prior.len() {
                        assert(edges_view(edges@)[idx] == prior[idx]);
                        if idx >= fe.len() {
                            assert(prior[idx] == loop_edges(hs).take(j as int)[idx - fe.len()]);
                        }
                    } else {
                        assert(edges_view(edges@)[idx] == loop_edge(hs, j as int));
                    }
                }
                assert(edges_view(edges@) =~= fe + loop_edges(hs).take(j as int + 1));
            }
            j = j + 1;
        }
        proof {
            assert(loop_edges(hs).take(m as int) =~= loop_edges(hs));
            let hp = holes_pts(holes@);
            assert(hp.take(k as int + 1).drop_last() =~= hp.take(k as int));
            assert(hp.take(k as int + 1).last() == hs);
            assert(holes_edges(hp.take(k as int + 1)) == holes_edges(hp.take(k as int))
                + loop_edges(hs));
            assert(fill_edges(vs, hp.take(k as int)) + loop_edges(hs) =~= fill_edges(
                vs,
                hp.take(k as int + 1),
            ));
        }
        k = k + 1;
    }
    proof {
        assert(holes_pts(holes@).take(holes@.len() as int) =~= holes_pts(holes@));
    }
    edges
}

/// The smallest y among the vertices.
#[verifier::loop_isolation(false)]
fn outer_min_y(vertices: &Vec<Point>) -> (r: i64)
    requires
        vertices@.len() >= 1,
        loop_ok(vertices@),
    ensures
        r as int == loop_min_y(pts_of(vertices@)),
        -0x2000_0000 <= r <= 0x2000_0000,
{
    let ghost vs = pts_of(vertices@);
    let mut r = vertices[0].y;
    let mut i: usize = 1;
    proof {
        assert(vs.take(1).len() == 1);
        assert(vs.take(1)[0] == vs[0]);
    }
    while i < vertices.len()
        invariant
            1 <= i <= vertices@.len(),
            r as int == loop_min_y(vs.take(i as int)),
            -0x2000_0000 <= r <= 0x2000_0000,
        decreases vertices@.len() - i,
    {
        let v = vertices[i].y;
        if v < r {
            r = v;
        }
        proof {
            assert(vs.take(i as int + 1).drop_last() =~= vs.take(i as int));
            assert(vs.take(i as int + 1).last() == vs[i as int]);
        }
        i = i + 1;
    }
    proof {
        assert(vs.take(vertices@.len() as int) =~= vs);
    }
    r
}

/// The largest y among the vertices.
#[verifier::loop_isolation(false)]
fn outer_max_y(vertices: &Vec<Point>) -> (r: i64)
    requires
        vertices@.len() >= 1,
        loop_ok(vertices@),
    ensures
        r as int == loop_max_y(pts_of(vertices@)),
        -0x2000_0000 <= r <= 0x2000_0000,
{
    let ghost vs = pts_of(vertices@);
    let mut r = vertices[0].y;
    let mut i: usize = 1;
    proof {
        assert(vs.take(1).len() == 1);
        assert(vs.take(1)[0] == vs[0]);
    }
    while i < vertices.len()
        invariant
            1 <= i <= vertices@.len(),
            r as int == loop_max_y(vs.take(i as int)),
            -0x2000_0000 <= r <= 0x2000_0000,
        decreases vertices@.len() - i,
    {
        let v = vertices[i].y;
        if v > r {
            r = v;
        }
        proof {
            assert(vs.take(i as int + 1).drop_last() =~= vs.take(i as int));
            assert(vs.take(i as int + 1).last() == vs[i as int]);
        }
        i = i + 1;
    }
    proof {
        assert(vs.take(vertices@.len() as int) =~= vs);
    }
    r
}

/// Outline the polygon: draw each boundary segment, in vertex order, with
/// `line_color` as the new draw color. With fewer than three vertices
/// nothing is drawn and the error reports it.
#[verifier::loop_isolation(false)]
#[verifier::rlimit(100)]
pub fn draw_polygon(fb: &mut Framebuffer, vertices: &Vec<Point>, line_color: Color) -> (r: Result<
    (),
    PolygonError,
>)
    requires
        old(fb).wf(),
        loop_ok(vertices@),
    ensures
        final(fb).wf(),
        r is Err <==> vertices@.len() < 3,
        r is Err ==> *final(fb) == *old(fb),
        r is Ok ==> {
            &&& final(fb).width == old(fb).width
            &&& final(fb).height == old(fb).height
            &&& final(fb).background() == old(fb).background()
            &&& final(fb).draw() == packed(line_color)
            &&& final(fb).cells().len() == old(fb).cells().len()
            &&& forall|px: int, py: int|
                0 <= px < old(fb).width && 0 <= py < old(fb).height ==> #[trigger] cell_at(
                    final(fb).cells(),
                    old(fb).width as int,
                    px,
                    py,
                ) == (if outline_covers(pts_of(vertices@), px, py) {
                    packed(line_color) as u32
                } else {
                    cell_at(old(fb).cells(), old(fb).width as int, px, py)
                })
        },
{
    if vertices.len() < 3 {
        return Err(PolygonError::TooFewVertices);
    }
    let ghost vs = pts_of(vertices@);
    let hex = line_color.to_hex();
    proof {
        assert(hex & 0xFFFFFF == hex) by (bit_vector)
            requires
                hex < 0x1000000,
        ;
    }
    fb.set_current_color(hex);
    let n = vertices.len();
    let mut i: usize = 0;
    while i < n
        invariant
            i <= n,
            fb.wf(),
            fb.width == old(fb).width,
            fb.height == old(fb).height,
            fb.background() == old(fb).background(),
            fb.draw() == hex,
            fb.cells().len() == old(fb).cells().len(),
            forall|px: int, py: int|
                0 <= px < old(fb).width && 0 <= py < old(fb).height ==> #[trigger] cell_at(
                    fb.cells(),
                    old(fb).width as int,
                    px,
                    py,
                ) == (if outline_covers_upto(vs, px, py, i as int) {
                    hex
                } else {
                    cell_at(old(fb).cells(), old(fb).width as int, px, py)
                }),
        decreases n - i,
    {
        let next = if i + 1 == n {
            0
        } else {
            i + 1
        };
        let a = vertices[i];
        let b = vertices[next];
        let ghost mid = fb.cells();
        fb.line(a.x as isize, a.y as isize, b.x as isize, b.y as isize);
        proof {
            let e = loop_edge(vs, i as int);
            assert(loop_edges(vs)[i as int] == e);
            assert(line_points(a.x as int, a.y as int, b.x as int, b.y as int) == seg_points(e));
            assert forall|px: int, py: int|
                0 <= px < old(fb).width && 0 <= py < old(fb).height implies #[trigger] cell_at(
                fb.cells(),
                old(fb).width as int,
                px,
                py,
            ) == (if outline_covers_upto(vs, px, py, i as int + 1) {
                hex
            } else {
                cell_at(old(fb).cells(), old(fb).width as int, px, py)
            }) by {
                if seg_points(e).contains((px, py)) {
                    assert(outline_covers_upto(vs, px, py, i as int + 1));
                } else {
                    if outline_covers_upto(vs, px, py, i as int + 1) && !outline_covers_upto(
                        vs,
                        px,
                        py,
                        i as int,
                    ) {
                        let j = choose|j: int|
                            0 <= j < i as int + 1 && j < vs.len() && seg_points(
                                #[trigger] loop_edges(vs)[j],
                            ).contains((px, py));
                        assert(j == i as int);
                        assert(false);
                    }
                }
            }
        }
        i = i + 1;
    }
    proof {
        assert forall|px: int, py: int|
            outline_covers(vs, px, py) implies outline_covers_upto(vs, px, py, n as int) by {
            let j = choose|j: int|
                0 <= j < vs.len() && seg_points(#[trigger] loop_edges(vs)[j]).contains((px, py));
            assert(0 <= j < n as int && seg_points(loop_edges(vs)[j]).contains((px, py)));
        }
    }
    Ok(())
}

/// Fill the polygon by scanline: for every row of the outer loop's vertical
/// extent, the sorted crossings of the combined edge list (outer loop plus
/// holes) are painted as alternating spans of `fill_color`, first pair
/// painted. With fewer than three outer vertices nothing is painted and the
/// error reports it.
#[verifier::loop_isolation(false)]
#[verifier::rlimit(100)]
pub fn fill_polygon(
    fb: &mut Framebuffer,
    vertices: &Vec<Point>,
    fill_color: Color,
    holes: &Vec<Vec<Point>>,
) -> (r: Result<(), PolygonError>)
    requires
        old(fb).wf(),
        loop_ok(vertices@),
        holes_ok(holes@),
    ensures
        final(fb).wf(),
        r is Err <==> vertices@.len() < 3,
        r is Err ==> *final(fb) == *old(fb),
        r is Ok ==> {
            &&& final(fb).width == old(fb).width
            &&& final(fb).height == old(fb).height
            &&& final(fb).background() == old(fb).background()
            &&& final(fb).draw() == packed(fill_color)
            &&& final(fb).cells().len() == old(fb).cells().len()
            &&& forall|px: int, py: int|
                0 <= px < old(fb).width && 0 <= py < old(fb).height ==> #[trigger] cell_at(
                    final(fb).cells(),
                    old(fb).width as int,
                    px,
                    py,
                ) == (if fill_covers(pts_of(vertices@), holes_pts(holes@), px, py) {
                    packed(fill_color) as u32
                } else {
                    cell_at(old(fb).cells(), old(fb).width as int, px, py)
                })
        },
{
    if vertices.len() < 3 {
        return Err(PolygonError::TooFewVertices);
    }
    let ghost vs = pts_of(vertices@);
    let ghost es = fill_edges(vs, holes_pts(holes@));
    let edges = build_edges(vertices, holes);
    let miny = outer_min_y(vertices);
    let maxy = outer_max_y(vertices);
    proof {
        lemma_loop_min_le_max(vs);
    }
    let hex = fill_color.to_hex();
    proof {
        assert(hex & 0xFFFFFF == hex) by (bit_vector)
            requires
                hex < 0x1000000,
        ;
    }
    fb.set_current_color(hex);
    let mut y = miny;
    while y <= maxy
        invariant
            miny <= y <= maxy + 1,
            fb.wf(),
            fb.width == old(fb).width,
            fb.height == old(fb).height,
            fb.background() == old(fb).background(),
            fb.draw() == hex,
            fb.cells().len() == old(fb).cells().len(),
            forall|px: int, py: int|
                0 <= px < old(fb).width && 0 <= py < old(fb).height ==> #[trigger] cell_at(
                    fb.cells(),
                    old(fb).width as int,
                    px,
                    py,
                ) == (if miny as int <= py < y as int && in_spans(
                    sort_ints(row_crossings(es, py)),
                    px,
                ) {
                    hex
                } else {
                    cell_at(old(fb).cells(), old(fb).width as int, px, py)
                }),
        decreases maxy + 1 - y,
    {
        let ghost mid = fb.cells();
        fill_scanline(fb, &edges, y);
        proof {
            assert forall|px: int, py: int|
                0 <= px < old(fb).width && 0 <= py < old(fb).height implies #[trigger] cell_at(
                fb.cells(),
                old(fb).width as int,
                px,
                py,
            ) == (if miny as int <= py < y as int + 1 && in_spans(
                sort_ints(row_crossings(es, py)),
                px,
            ) {
                hex
            } else {
                cell_at(old(fb).cells(), old(fb).width as int, px, py)
            }) by {
                if py == y as int {
                    assert(miny as int <= py);
                } else {
                    assert(cell_at(fb.cells(), old(fb).width as int, px, py) == cell_at(
                        mid,
                        old(fb).width as int,
                        px,
                        py,
                    ));
                }
            }
        }
        y = y + 1;
    }
    Ok(())
}

} // verus!
