//! The line rasterizer: an integer error-accumulation stepper, the pixel
//! sequence it traces, and the verified `line` drawing method.

use vstd::math::abs;
use vstd::prelude::*;

use crate::framebuffer::lemma_row_major_index;
use crate::framebuffer::lemma_row_major_injective;
use crate::framebuffer::Framebuffer;

verus! {

/// The cell of a `w`-wide row-major grid at column `x`, row `y`.
pub open spec fn cell_at(cells: Seq<u32>, w: int, x: int, y: int) -> u32 {
    cells[y * w + x]
}

/// `post` is `pre` with exactly the in-bounds points of `pts` overpainted
/// with `color`; everything else is untouched.
pub open spec fn painted(
    pre: Seq<u32>,
    post: Seq<u32>,
    w: int,
    h: int,
    pts: Seq<(int, int)>,
    color: u32,
) -> bool {
    &&& post.len() == pre.len()
    &&& forall|px: int, py: int|
        0 <= px < w && 0 <= py < h ==> #[trigger] cell_at(post, w, px, py) == (if pts.contains(
            (px, py),
        ) {
            color
        } else {
            cell_at(pre, w, px, py)
        })
}

/// Coordinates the rasterizer accepts: small enough that every error-term
/// product fits in 64 bits and every stepped coordinate fits in `isize`.
pub open spec fn coord_ok(v: int) -> bool {
    -0x6000_0000 <= v <= 0x6000_0000
}

/// State invariant of the stepper walking from some start point toward
/// `(x1, y1)`: `dx`, `dy` are the axis distances of the whole segment,
/// `sx`, `sy` the step directions, and `err` carries the standard
/// error-accumulation relation for the steps taken so far.
#[verifier::opaque]
pub open spec fn bres_inv(
    x: int,
    y: int,
    x1: int,
    y1: int,
    err: int,
    dx: int,
    dy: int,
    sx: int,
    sy: int,
) -> bool {
    let ra = abs(x1 - x) as int;
    let rb = abs(y1 - y) as int;
    &&& 0 <= dx
    &&& 0 <= dy
    &&& sx == 1 || sx == -1
    &&& sy == 1 || sy == -1
    &&& ra <= dx
    &&& rb <= dy
    &&& x1 - x == ra * sx
    &&& y1 - y == rb * sy
    &&& err == dx - dy - (dx - ra) * dy + (dy - rb) * dx
}

/// The x coordinate after one step.
pub open spec fn bres_step_x(x: int, err: int, dy: int, sx: int) -> int {
    if 2 * err > -dy {
        x + sx
    } else {
        x
    }
}

/// The y coordinate after one step.
pub open spec fn bres_step_y(y: int, err: int, dx: int, dy: int, sy: int) -> int {
    if 2 * err < dx {
        y + sy
    } else {
        y
    }
}

/// The error term after one step.
pub open spec fn bres_step_err(err: int, dx: int, dy: int) -> int {
    let e = if 2 * err > -dy {
        err - dy
    } else {
        err
    };
    if 2 * err < dx {
        e + dx
    } else {
        e
    }
}

/// One step of the walk makes progress, keeps the invariant, and keeps the
/// error term within a fixed multiple of the segment size.
pub proof fn lemma_bres_step(
    x: int,
    y: int,
    x1: int,
    y1: int,
    err: int,
    dx: int,
    dy: int,
    sx: int,
    sy: int,
)
    requires
        bres_inv(x, y, x1, y1, err, dx, dy, sx, sy),
        !(x == x1 && y == y1),
    ensures
        2 * err > -dy || 2 * err < dx,
        2 * err > -dy ==> x != x1,
        2 * err < dx ==> y != y1,
        bres_inv(
            bres_step_x(x, err, dy, sx),
            bres_step_y(y, err, dx, dy, sy),
            x1,
            y1,
            bres_step_err(err, dx, dy),
            dx,
            dy,
            sx,
            sy,
        ),
        abs(x1 - bres_step_x(x, err, dy, sx)) + abs(y1 - bres_step_y(y, err, dx, dy, sy)) < abs(
            x1 - x,
        ) + abs(y1 - y),
        -(2 * (dx + dy) + 1) <= err && err <= 2 * (dx + dy) + 1 ==> -(2 * (dx + dy) + 1)
            <= bres_step_err(err, dx, dy) && bres_step_err(err, dx, dy) <= 2 * (dx + dy) + 1,
{
    reveal(bres_inv);
    let ra = abs(x1 - x) as int;
    let rb = abs(y1 - y) as int;
    let a = dx - ra;
    let b = dy - rb;
    // An x step with x already at its target would contradict the error relation.
    if 2 * err > -dy && ra == 0 {
        assert(x == x1);
        assert(rb >= 1);
        assert(false) by (nonlinear_arith)
            requires
                a == dx,
                0 <= b,
                b <= dy - 1,
                0 <= dx,
                1 <= dy,
                err == dx - dy - a * dy + b * dx,
                2 * err > -dy,
        ;
    }
    // Likewise for a y step with y at its target.
    if 2 * err < dx && rb == 0 {
        assert(y == y1);
        assert(ra >= 1);
        assert(false) by (nonlinear_arith)
            requires
                b == dy,
                0 <= a,
                a <= dx - 1,
                0 <= dy,
                1 <= dx,
                err == dx - dy - a * dy + b * dx,
                2 * err < dx,
        ;
    }
    // At least one axis steps: otherwise dx <= 2*err <= -dy forces dx == dy == 0.
    if !(2 * err > -dy) && !(2 * err < dx) {
        assert(a * dy >= 0 && b * dx >= 0) by (nonlinear_arith)
            requires
                0 <= a,
                0 <= b,
                0 <= dx,
                0 <= dy,
        ;
        assert(dx == 0 && dy == 0);
        assert(ra == 0 && rb == 0);
        assert(false);
    }
    let cx = 2 * err > -dy;
    let cy = 2 * err < dx;
    let da: int = if cx {
        1
    } else {
        0
    };
    let db: int = if cy {
        1
    } else {
        0
    };
    let nx = bres_step_x(x, err, dy, sx);
    let ny = bres_step_y(y, err, dx, dy, sy);
    let nerr = bres_step_err(err, dx, dy);
    // The stepped coordinate moves one unit toward the target on each
    // stepped axis.
    if cx {
        assert(ra >= 1);
        if sx == 1 {
            assert(ra * 1 == ra);
            assert((ra - 1) * 1 == ra - 1);
            assert(x1 - nx == ra - 1);
        } else {
            assert(ra * -1 == -ra);
            assert((ra - 1) * -1 == -(ra - 1));
            assert(x1 - nx == -(ra - 1));
        }
        assert(abs(x1 - nx) as int == ra - 1);
        assert(x1 - nx == (abs(x1 - nx) as int) * sx);
    } else {
        assert(abs(x1 - nx) as int == ra);
    }
    if cy {
        assert(rb >= 1);
        if sy == 1 {
            assert(rb * 1 == rb);
            assert((rb - 1) * 1 == rb - 1);
            assert(y1 - ny == rb - 1);
        } else {
            assert(rb * -1 == -rb);
            assert((rb - 1) * -1 == -(rb - 1));
            assert(y1 - ny == -(rb - 1));
        }
        assert(abs(y1 - ny) as int == rb - 1);
        assert(y1 - ny == (abs(y1 - ny) as int) * sy);
    } else {
        assert(abs(y1 - ny) as int == rb);
    }
    // The error relation is preserved with one more step booked on each
    // stepped axis.
    assert(err - da * dy + db * dx == dx - dy - (a + da) * dy + (b + db) * dx) by (nonlinear_arith)
        requires
            err == dx - dy - a * dy + b * dx,
    ;
    assert(nerr == err - da * dy + db * dx);
    assert(dx - (abs(x1 - nx) as int) == a + da);
    assert(dy - (abs(y1 - ny) as int) == b + db);
}

#[via_fn]
proof fn bres_rec_dec(x: int, y: int, x1: int, y1: int, err: int, dx: int, dy: int, sx: int, sy: int) {
    if bres_inv(x, y, x1, y1, err, dx, dy, sx, sy) && !(x == x1 && y == y1) {
        lemma_bres_step(x, y, x1, y1, err, dx, dy, sx, sy);
    }
}

/// The points the stepper visits from `(x, y)` until it reaches `(x1, y1)`,
/// in visit order, endpoints included.
pub open spec fn bres_rec(
    x: int,
    y: int,
    x1: int,
    y1: int,
    err: int,
    dx: int,
    dy: int,
    sx: int,
    sy: int,
) -> Seq<(int, int)>
    decreases abs(x1 - x) + abs(y1 - y)
        when bres_inv(x, y, x1, y1, err, dx, dy, sx, sy)
        via bres_rec_dec
{
    if x == x1 && y == y1 {
        seq![(x, y)]
    } else {
        seq![(x, y)] + bres_rec(
            bres_step_x(x, err, dy, sx),
            bres_step_y(y, err, dx, dy, sy),
            x1,
            y1,
            bres_step_err(err, dx, dy),
            dx,
            dy,
            sx,
            sy,
        )
    }
}

/// The pixels of the segment from `(x0, y0)` to `(x1, y1)`: the walk of the
/// error-accumulation stepper started with distances `|x1-x0|`, `|y1-y0|`,
/// directions given by the coordinate order, and error `|dx| - |dy|`.
pub open spec fn line_points(x0: int, y0: int, x1: int, y1: int) -> Seq<(int, int)> {
    bres_rec(
        x0,
        y0,
        x1,
        y1,
        abs(x1 - x0) - abs(y1 - y0),
        abs(x1 - x0) as int,
        abs(y1 - y0) as int,
        if x0 < x1 {
            1
        } else {
            -1
        },
        if y0 < y1 {
            1
        } else {
            -1
        },
    )
}

/// The initial stepper state of a segment satisfies the walk invariant.
pub proof fn lemma_line_points_init(x0: int, y0: int, x1: int, y1: int)
    ensures
        bres_inv(
            x0,
            y0,
            x1,
            y1,
            abs(x1 - x0) - abs(y1 - y0),
            abs(x1 - x0) as int,
            abs(y1 - y0) as int,
            if x0 < x1 {
                1
            } else {
                -1
            },
            if y0 < y1 {
                1
            } else {
                -1
            },
        ),
        line_points(x0, y0, x1, y1) == bres_rec(
            x0,
            y0,
            x1,
            y1,
            abs(x1 - x0) - abs(y1 - y0),
            abs(x1 - x0) as int,
            abs(y1 - y0) as int,
            if x0 < x1 {
                1
            } else {
                -1
            },
            if y0 < y1 {
                1
            } else {
                -1
            },
        ),
{
    reveal(bres_inv);
    let ra = abs(x1 - x0) as int;
    let rb = abs(y1 - y0) as int;
    if x0 < x1 {
        assert(ra * 1 == ra);
    } else {
        assert(ra * -1 == -ra);
    }
    if y0 < y1 {
        assert(rb * 1 == rb);
    } else {
        assert(rb * -1 == -rb);
    }
    assert((ra - ra) * rb == 0) by (nonlinear_arith);
    assert((rb - rb) * ra == 0) by (nonlinear_arith);
}

/// A zero-length segment paints exactly its single endpoint.
pub proof fn lemma_line_points_single(x: int, y: int)
    ensures
        line_points(x, y, x, y) == seq![(x, y)],
{
    lemma_line_points_init(x, y, x, y);
}

/// A point of `pts` was painted; every other cell is untouched.
proof fn lemma_point_effect(pre: Seq<u32>, post: Seq<u32>, w: int, h: int, x: int, y: int, c: u32)
    requires
        0 <= w,
        0 <= h,
        pre.len() == w * h,
        post == (if 0 <= x < w && 0 <= y < h {
            pre.update(y * w + x, c)
        } else {
            pre
        }),
    ensures
        post.len() == pre.len(),
        forall|px: int, py: int|
            0 <= px < w && 0 <= py < h ==> #[trigger] cell_at(post, w, px, py) == (if px == x && py
                == y {
                c
            } else {
                cell_at(pre, w, px, py)
            }),
{
    if 0 <= x < w && 0 <= y < h {
        lemma_row_major_index(w, h, x, y);
    }
    assert forall|px: int, py: int| 0 <= px < w && 0 <= py < h implies #[trigger] cell_at(
        post,
        w,
        px,
        py,
    ) == (if px == x && py == y {
        c
    } else {
        cell_at(pre, w, px, py)
    }) by {
        lemma_row_major_index(w, h, px, py);
        if 0 <= x < w && 0 <= y < h {
            lemma_row_major_index(w, h, x, y);
            if !(px == x && py == y) {
                lemma_row_major_injective(w, h, x, y, px, py);
            }
        }
    }
}

/// Membership in a pushed sequence.
proof fn lemma_push_contains(pts: Seq<(int, int)>, p: (int, int))
    ensures
        forall|q: (int, int)| #[trigger] pts.push(p).contains(q) <==> pts.contains(q) || q == p,
{
    assert forall|q: (int, int)| #[trigger] pts.push(p).contains(q) implies pts.contains(q) || q
        == p by {
        let i = choose|i: int| 0 <= i < pts.push(p).len() && pts.push(p)[i] == q;
        if i < pts.len() {
            assert(pts[i] == q);
        }
    }
    assert forall|q: (int, int)| pts.contains(q) || q == p implies #[trigger] pts.push(p).contains(
        q,
    ) by {
        if pts.contains(q) {
            let i = choose|i: int| 0 <= i < pts.len() && pts[i] == q;
            assert(pts.push(p)[i] == q);
        } else {
            assert(pts.push(p)[pts.len() as int] == p);
        }
    }
}

/// Extending a painted set by one more painted point.
proof fn lemma_painted_step(
    pre: Seq<u32>,
    mid: Seq<u32>,
    post: Seq<u32>,
    w: int,
    h: int,
    pts: Seq<(int, int)>,
    p: (int, int),
    c: u32,
)
    requires
        painted(pre, mid, w, h, pts, c),
        post.len() == mid.len(),
        forall|px: int, py: int|
            0 <= px < w && 0 <= py < h ==> #[trigger] cell_at(post, w, px, py) == (if px == p.0
                && py == p.1 {
                c
            } else {
                cell_at(mid, w, px, py)
            }),
    ensures
        painted(pre, post, w, h, pts.push(p), c),
{
    lemma_push_contains(pts, p);
}

impl Framebuffer {
    /// Draw the straight segment from `(x0, y0)` to `(x1, y1)` with the
    /// current draw color by integer error accumulation. Endpoints are
    /// inclusive; pixels outside the grid are silently clipped.
    #[verifier::loop_isolation(false)]
    #[verifier::rlimit(100)]
    pub fn line(&mut self, x0: isize, y0: isize, x1: isize, y1: isize)
        requires
            old(self).wf(),
            coord_ok(x0 as int),
            coord_ok(y0 as int),
            coord_ok(x1 as int),
            coord_ok(y1 as int),
        ensures
            final(self).wf(),
            final(self).same_config(old(self)),
            painted(
                old(self).cells(),
                final(self).cells(),
                old(self).width as int,
                old(self).height as int,
                line_points(x0 as int, y0 as int, x1 as int, y1 as int),
                old(self).draw(),
            ),
    {
        let x0l = x0 as i64;
        let y0l = y0 as i64;
        let x1l = x1 as i64;
        let y1l = y1 as i64;
        let dx = if x1l >= x0l {
            x1l - x0l
        } else {
            x0l - x1l
        };
        let dy = if y1l >= y0l {
            y1l - y0l
        } else {
            y0l - y1l
        };
        let sx: i64 = if x0l < x1l {
            1
        } else {
            -1
        };
        let sy: i64 = if y0l < y1l {
            1
        } else {
            -1
        };
        let mut err: i64 = dx - dy;
        let mut x = x0l;
        let mut y = y0l;
        let ghost total = line_points(x0 as int, y0 as int, x1 as int, y1 as int);
        proof {
            lemma_line_points_init(x0 as int, y0 as int, x1 as int, y1 as int);
        }
        let ghost mut pts: Seq<(int, int)> = Seq::empty().push((x as int, y as int));
        let ghost pre = self.cells();
        self.point(x as isize, y as isize);
        proof {
            lemma_point_effect(
                pre,
                self.cells(),
                self.width as int,
                self.height as int,
                x as int,
                y as int,
                old(self).draw(),
            );
            lemma_painted_step(
                pre,
                pre,
                self.cells(),
                self.width as int,
                self.height as int,
                Seq::empty(),
                (x as int, y as int),
                old(self).draw(),
            );
            assert(Seq::<(int, int)>::empty() + bres_rec(
                x as int,
                y as int,
                x1l as int,
                y1l as int,
                err as int,
                dx as int,
                dy as int,
                sx as int,
                sy as int,
            ) =~= bres_rec(
                x as int,
                y as int,
                x1l as int,
                y1l as int,
                err as int,
                dx as int,
                dy as int,
                sx as int,
                sy as int,
            ));
        }
        while !(x == x1l && y == y1l)
            invariant
                self.wf(),
                self.same_config(old(self)),
                bres_inv(
                    x as int,
                    y as int,
                    x1l as int,
                    y1l as int,
                    err as int,
                    dx as int,
                    dy as int,
                    sx as int,
                    sy as int,
                ),
                x0l <= x <= x1l || x1l <= x <= x0l,
                y0l <= y <= y1l || y1l <= y <= y0l,
                -(2 * (dx + dy) + 1) <= err && err <= 2 * (dx + dy) + 1,
                pts.len() >= 1,
                pts.last() == (x as int, y as int),
                total == pts.drop_last() + bres_rec(
                    x as int,
                    y as int,
                    x1l as int,
                    y1l as int,
                    err as int,
                    dx as int,
                    dy as int,
                    sx as int,
                    sy as int,
                ),
                painted(
                    old(self).cells(),
                    self.cells(),
                    old(self).width as int,
                    old(self).height as int,
                    pts,
                    old(self).draw(),
                ),
            decreases abs(x1l as int - x as int) + abs(y1l as int - y as int),
        {
            proof {
                lemma_bres_step(
                    x as int,
                    y as int,
                    x1l as int,
                    y1l as int,
                    err as int,
                    dx as int,
                    dy as int,
                    sx as int,
                    sy as int,
                );
            }
            let ghost prev = (x as int, y as int);
            let ghost rest = bres_rec(
                x as int,
                y as int,
                x1l as int,
                y1l as int,
                err as int,
                dx as int,
                dy as int,
                sx as int,
                sy as int,
            );
            let e2 = 2 * err;
            if e2 > -dy {
                err = err - dy;
                x = x + sx;
            }
            if e2 < dx {
                err = err + dx;
                y = y + sy;
            }
            let ghost nrest = bres_rec(
                x as int,
                y as int,
                x1l as int,
                y1l as int,
                err as int,
                dx as int,
                dy as int,
                sx as int,
                sy as int,
            );
            proof {
                assert(rest == seq![prev] + nrest);
            }
            let ghost mid = self.cells();
            self.point(x as isize, y as isize);
            proof {
                lemma_point_effect(
                    mid,
                    self.cells(),
                    self.width as int,
                    self.height as int,
                    x as int,
                    y as int,
                    old(self).draw(),
                );
                lemma_painted_step(
                    old(self).cells(),
                    mid,
                    self.cells(),
                    self.width as int,
                    self.height as int,
                    pts,
                    (x as int, y as int),
                    old(self).draw(),
                );
                let opts = pts;
                pts = pts.push((x as int, y as int));
                assert(opts.drop_last() + seq![prev] =~= opts);
                assert(opts.drop_last() + (seq![prev] + nrest) =~= (opts.drop_last() + seq![prev])
                    + nrest);
                assert(pts.drop_last() =~= opts);
            }
        }
        proof {
            assert(bres_rec(
                x as int,
                y as int,
                x1l as int,
                y1l as int,
                err as int,
                dx as int,
                dy as int,
                sx as int,
                sy as int,
            ) == seq![(x as int, y as int)]);
            assert(pts.drop_last() + seq![(x as int, y as int)] =~= pts);
            assert(total == pts);
        }
    }
}

/// A zero-length segment paints exactly one pixel: after drawing the
/// degenerate segment at `(x, y)` over `pre`, the cell at `(x, y)` (when in
/// bounds) holds the draw color and every other cell is unchanged.
pub proof fn lemma_degenerate_line_paints_one(
    pre: Seq<u32>,
    post: Seq<u32>,
    w: int,
    h: int,
    x: int,
    y: int,
    c: u32,
)
    requires
        painted(pre, post, w, h, line_points(x, y, x, y), c),
    ensures
        forall|px: int, py: int|
            0 <= px < w && 0 <= py < h ==> #[trigger] cell_at(post, w, px, py) == (if px == x && py
                == y {
                c
            } else {
                cell_at(pre, w, px, py)
            }),
{
    lemma_line_points_single(x, y);
    let pts = line_points(x, y, x, y);
    assert forall|px: int, py: int| #[trigger] pts.contains((px, py)) implies px == x && py
        == y by {
        let i = choose|i: int| 0 <= i < pts.len() && pts[i] == (px, py);
        assert(pts[i] == (x, y));
    }
    assert(pts[0] == (x, y));
    assert(pts.contains((x, y)));
}

/// A walk with zero vertical distance visits exactly one cell per unit of
/// horizontal distance, in step order.
proof fn lemma_bres_horizontal_rec(x: int, y: int, x1: int, err: int, dx: int, sx: int, sy: int)
    requires
        bres_inv(x, y, x1, y, err, dx, 0, sx, sy),
    ensures
        bres_rec(x, y, x1, y, err, dx, 0, sx, sy) == Seq::new(
            (abs(x1 - x) + 1) as nat,
            |i: int| (x + i * sx, y),
        ),
    decreases abs(x1 - x),
{
    reveal(bres_inv);
    let ra = abs(x1 - x) as int;
    let s = bres_rec(x, y, x1, y, err, dx, 0, sx, sy);
    if x == x1 {
        assert(s == seq![(x, y)]);
        assert(s =~= Seq::new((ra + 1) as nat, |i: int| (x + i * sx, y))) by {
            assert(0 * sx == 0) by (nonlinear_arith);
        }
    } else {
        lemma_bres_step(x, y, x1, y, err, dx, 0, sx, sy);
        assert(!(2 * err < dx));
        let nx = bres_step_x(x, err, 0, sx);
        let nerr = bres_step_err(err, dx, 0);
        assert(bres_step_y(y, err, dx, 0, sy) == y);
        assert(nx == x + sx);
        lemma_bres_horizontal_rec(nx, y, x1, nerr, dx, sx, sy);
        let n = abs(x1 - nx) as int;
        assert(n == ra - 1) by (nonlinear_arith)
            requires
                x1 - nx == n * sx,
                x1 - x == ra * sx,
                nx == x + sx,
                sx == 1 || sx == -1,
                0 <= n,
                0 <= ra,
        ;
        let tail = Seq::new((abs(x1 - nx) + 1) as nat, |i: int| (nx + i * sx, y));
        assert(s == seq![(x, y)] + tail);
        assert(s =~= Seq::new((ra + 1) as nat, |i: int| (x + i * sx, y))) by {
            assert forall|i: int| 0 <= i < ra + 1 implies (seq![(x, y)] + tail)[i] == (
            x + i * sx,
            y,
            ) by {
                if i == 0 {
                    assert(0 * sx == 0) by (nonlinear_arith);
                } else {
                    assert(tail[i - 1] == (nx + (i - 1) * sx, y));
                    assert(x + sx + (i - 1) * sx == x + i * sx) by (nonlinear_arith);
                }
            }
        }
    }
}

/// A walk with zero horizontal distance visits exactly one cell per unit of
/// vertical distance, in step order.
proof fn lemma_bres_vertical_rec(x: int, y: int, y1: int, err: int, dy: int, sx: int, sy: int)
    requires
        bres_inv(x, y, x, y1, err, 0, dy, sx, sy),
    ensures
        bres_rec(x, y, x, y1, err, 0, dy, sx, sy) == Seq::new(
            (abs(y1 - y) + 1) as nat,
            |i: int| (x, y + i * sy),
        ),
    decreases abs(y1 - y),
{
    reveal(bres_inv);
    let rb = abs(y1 - y) as int;
    let s = bres_rec(x, y, x, y1, err, 0, dy, sx, sy);
    if y == y1 {
        assert(s == seq![(x, y)]);
        assert(s =~= Seq::new((rb + 1) as nat, |i: int| (x, y + i * sy))) by {
            assert(0 * sy == 0) by (nonlinear_arith);
        }
    } else {
        lemma_bres_step(x, y, x, y1, err, 0, dy, sx, sy);
        assert(!(2 * err > -dy));
        let ny = bres_step_y(y, err, 0, dy, sy);
        let nerr = bres_step_err(err, 0, dy);
        assert(bres_step_x(x, err, dy, sx) == x);
        assert(ny == y + sy);
        lemma_bres_vertical_rec(x, ny, y1, nerr, dy, sx, sy);
        let n = abs(y1 - ny) as int;
        assert(n == rb - 1) by (nonlinear_arith)
            requires
                y1 - ny == n * sy,
                y1 - y == rb * sy,
                ny == y + sy,
                sy == 1 || sy == -1,
                0 <= n,
                0 <= rb,
        ;
        let tail = Seq::new((abs(y1 - ny) + 1) as nat, |i: int| (x, ny + i * sy));
        assert(s == seq![(x, y)] + tail);
        assert(s =~= Seq::new((rb + 1) as nat, |i: int| (x, y + i * sy))) by {
            assert forall|i: int| 0 <= i < rb + 1 implies (seq![(x, y)] + tail)[i] == (
            x,
            y + i * sy,
            ) by {
                if i == 0 {
                    assert(0 * sy == 0) by (nonlinear_arith);
                } else {
                    assert(tail[i - 1] == (x, ny + (i - 1) * sy));
                    assert(y + sy + (i - 1) * sy == y + i * sy) by (nonlinear_arith);
                }
            }
        }
    }
}

/// The pixels of a horizontal segment are exactly the cells of its x range
/// at its one row.
pub proof fn lemma_line_points_horizontal(x0: int, y: int, x1: int)
    ensures
        forall|p: (int, int)|
            #[trigger] line_points(x0, y, x1, y).contains(p) <==> (p.1 == y && vstd::math::min(
                x0,
                x1,
            ) <= p.0 <= vstd::math::max(x0, x1)),
{
    lemma_line_points_init(x0, y, x1, y);
    let sx: int = if x0 < x1 {
        1
    } else {
        -1
    };
    let sy: int = if y < y {
        1
    } else {
        -1
    };
    let dx = abs(x1 - x0) as int;
    lemma_bres_horizontal_rec(x0, y, x1, dx - 0, dx, sx, sy);
    let s = line_points(x0, y, x1, y);
    assert(s == Seq::new((dx + 1) as nat, |i: int| (x0 + i * sx, y)));
    assert forall|p: (int, int)| #[trigger] s.contains(p) implies (p.1 == y && vstd::math::min(
        x0,
        x1,
    ) <= p.0 <= vstd::math::max(x0, x1)) by {
        let i = choose|i: int| 0 <= i < s.len() && s[i] == p;
        assert(p == (x0 + i * sx, y));
        if sx == 1 {
            assert(i * 1 == i) by (nonlinear_arith);
        } else {
            assert(i * -1 == -i) by (nonlinear_arith);
        }
    }
    assert forall|p: (int, int)|
        p.1 == y && vstd::math::min(x0, x1) <= p.0 <= vstd::math::max(
            x0,
            x1,
        ) implies #[trigger] s.contains(p) by {
        if sx == 1 {
            let i = p.0 - x0;
            assert(i * 1 == i) by (nonlinear_arith);
            assert(s[i] == p);
        } else {
            let i = x0 - p.0;
            assert(i * -1 == -i) by (nonlinear_arith);
            assert(s[i] == p);
        }
    }
}

/// The pixels of a vertical segment are exactly the cells of its y range at
/// its one column.
pub proof fn lemma_line_points_vertical(x: int, y0: int, y1: int)
    ensures
        forall|p: (int, int)|
            #[trigger] line_points(x, y0, x, y1).contains(p) <==> (p.0 == x && vstd::math::min(
                y0,
                y1,
            ) <= p.1 <= vstd::math::max(y0, y1)),
{
    lemma_line_points_init(x, y0, x, y1);
    let sy: int = if y0 < y1 {
        1
    } else {
        -1
    };
    let sx: int = if x < x {
        1
    } else {
        -1
    };
    let dy = abs(y1 - y0) as int;
    lemma_bres_vertical_rec(x, y0, y1, 0 - dy, dy, sx, sy);
    let s = line_points(x, y0, x, y1);
    assert(s == Seq::new((dy + 1) as nat, |i: int| (x, y0 + i * sy)));
    assert forall|p: (int, int)| #[trigger] s.contains(p) implies (p.0 == x && vstd::math::min(
        y0,
        y1,
    ) <= p.1 <= vstd::math::max(y0, y1)) by {
        let i = choose|i: int| 0 <= i < s.len() && s[i] == p;
        assert(p == (x, y0 + i * sy));
        if sy == 1 {
            assert(i * 1 == i) by (nonlinear_arith);
        } else {
            assert(i * -1 == -i) by (nonlinear_arith);
        }
    }
    assert forall|p: (int, int)|
        p.0 == x && vstd::math::min(y0, y1) <= p.1 <= vstd::math::max(
            y0,
            y1,
        ) implies #[trigger] s.contains(p) by {
        if sy == 1 {
            let i = p.1 - y0;
            assert(i * 1 == i) by (nonlinear_arith);
            assert(s[i] == p);
        } else {
            let i = y0 - p.1;
            assert(i * -1 == -i) by (nonlinear_arith);
            assert(s[i] == p);
        }
    }
}

/// Axis-aligned segments paint the same pixel set whichever endpoint comes
/// first. General segments need not: individual rounding choices of the
/// stepper can differ between the two directions.
pub proof fn lemma_line_points_symmetric_axis_aligned(x0: int, y0: int, x1: int, y1: int)
    requires
        x0 == x1 || y0 == y1,
    ensures
        forall|p: (int, int)|
            #[trigger] line_points(x0, y0, x1, y1).contains(p) <==> #[trigger] line_points(
                x1,
                y1,
                x0,
                y0,
            ).contains(p),
{
    if y0 == y1 {
        lemma_line_points_horizontal(x0, y0, x1);
        lemma_line_points_horizontal(x1, y0, x0);
    } else {
        lemma_line_points_vertical(x0, y0, y1);
        lemma_line_points_vertical(x0, y1, y0);
    }
}

} // verus!
