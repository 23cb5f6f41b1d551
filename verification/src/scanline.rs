//! Scanline machinery for polygon filling: edge/row crossing computation,
//! truncating interpolation, and a verified insertion sort of crossing lists.

use vstd::arithmetic::div_mod::lemma_div_is_ordered;
use vstd::arithmetic::div_mod::lemma_div_multiples_vanish;
use vstd::arithmetic::div_mod::lemma_div_pos_is_pos;
use vstd::math::abs;
use vstd::prelude::*;

use crate::bresenham::cell_at;
use crate::bresenham::line_points;
use crate::bresenham::lemma_line_points_horizontal;
use crate::framebuffer::Framebuffer;

verus! {

/// A directed edge in executable form; the spec view is a 4-tuple of `int`.
pub open spec fn edge_view(e: (i64, i64, i64, i64)) -> (int, int, int, int) {
    (e.0 as int, e.1 as int, e.2 as int, e.3 as int)
}

/// The spec view of an executable edge list.
pub open spec fn edges_view(s: Seq<(i64, i64, i64, i64)>) -> Seq<(int, int, int, int)> {
    s.map_values(|e: (i64, i64, i64, i64)| edge_view(e))
}

/// The spec view of an executable crossing list.
pub open spec fn ints_of(s: Seq<i64>) -> Seq<int> {
    s.map_values(|v: i64| v as int)
}

/// All four coordinates of the edge lie in the vertex range the fill
/// arithmetic accepts.
pub open spec fn edge_ok(e: (int, int, int, int)) -> bool {
    &&& -0x2000_0000 <= e.0 <= 0x2000_0000
    &&& -0x2000_0000 <= e.1 <= 0x2000_0000
    &&& -0x2000_0000 <= e.2 <= 0x2000_0000
    &&& -0x2000_0000 <= e.3 <= 0x2000_0000
}

/// Every edge of the list is in range.
pub open spec fn edges_ok(es: Seq<(int, int, int, int)>) -> bool {
    forall|i: int| 0 <= i < es.len() ==> edge_ok(#[trigger] es[i])
}

/// The half-open scanline test: the edge `(x1,y1)-(x2,y2)` crosses row `y`
/// exactly when one endpoint's row is `<= y` and the other's is `> y`.
pub open spec fn edge_crosses(e: (int, int, int, int), y: int) -> bool {
    (e.1 <= y && y < e.3) || (e.3 <= y && y < e.1)
}

/// Truncating (round-toward-zero) division, the semantics of the
/// executable division used for edge interpolation.
pub open spec fn tdiv(a: int, b: int) -> int {
    if a == 0 {
        0
    } else if a > 0 && b > 0 {
        a / b
    } else if a < 0 && b < 0 {
        (a * -1) / (b * -1)
    } else if a < 0 {
        ((a * -1) / b) * -1
    } else {
        (a / (b * -1)) * -1
    }
}

/// The column where the edge meets row `y`, by truncating interpolation
/// from the edge's first endpoint.
pub open spec fn cross_x(e: (int, int, int, int), y: int) -> int {
    e.0 + tdiv((y - e.1) * (e.2 - e.0), e.3 - e.1)
}

/// The crossing columns of all edges of `es` at row `y`, in edge order.
pub open spec fn row_crossings(es: Seq<(int, int, int, int)>, y: int) -> Seq<int>
    decreases es.len(),
{
    if es.len() == 0 {
        Seq::empty()
    } else {
        row_crossings(es.drop_last(), y) + (if edge_crosses(es.last(), y) {
            seq![cross_x(es.last(), y)]
        } else {
            Seq::empty()
        })
    }
}

/// `s` is sorted ascending.
pub open spec fn sorted(s: Seq<int>) -> bool {
    forall|i: int, j: int| 0 <= i < j < s.len() ==> s[i] <= s[j]
}

/// `v` inserted before the first element of `s` that is not below it.
pub open spec fn insert_sorted(v: int, s: Seq<int>) -> Seq<int>
    decreases s.len(),
{
    if s.len() == 0 {
        seq![v]
    } else if v <= s[0] {
        seq![v] + s
    } else {
        seq![s[0]] + insert_sorted(v, s.drop_first())
    }
}

/// Insertion sort of `s`: the ascending rearrangement of its values.
pub open spec fn sort_ints(s: Seq<int>) -> Seq<int>
    decreases s.len(),
{
    if s.len() == 0 {
        Seq::empty()
    } else {
        insert_sorted(s.last(), sort_ints(s.drop_last()))
    }
}

/// Column `x` lies inside a painted span of the sorted crossing list `c`
/// under the pair toggle: pairs `(c[0],c[1])`, `(c[2],c[3])`, ... are
/// painted, the pairs between them are skipped, and a final unpaired
/// crossing paints nothing.
pub open spec fn in_spans(c: Seq<int>, x: int) -> bool {
    exists|i: int| 0 <= i && i + 1 < c.len() && i % 2 == 0 && #[trigger] c[i] <= x && x <= c[i + 1]
}

/// Where `insert_sorted` puts the new value: at the first index whose
/// element is not below it.
proof fn lemma_insert_sorted_at(s: Seq<int>, v: int, pos: int)
    requires
        0 <= pos <= s.len(),
        forall|j: int| 0 <= j < pos ==> s[j] < v,
        pos < s.len() ==> v <= s[pos],
    ensures
        insert_sorted(v, s) == s.insert(pos, v),
    decreases pos,
{
    if pos == 0 {
        if s.len() == 0 {
            assert(insert_sorted(v, s) =~= s.insert(0, v));
        } else {
            assert(insert_sorted(v, s) == seq![v] + s);
            assert(seq![v] + s =~= s.insert(0, v));
        }
    } else {
        assert(s[0] < v);
        lemma_insert_sorted_at(s.drop_first(), v, pos - 1);
        assert(seq![s[0]] + s.drop_first().insert(pos - 1, v) =~= s.insert(pos, v));
    }
}

/// Inserting keeps a sorted list sorted, grows it by one, and keeps all
/// values within any range that covers the old values and the new one.
proof fn lemma_insert_sorted_props(s: Seq<int>, v: int, lo: int, hi: int)
    requires
        sorted(s),
        forall|j: int| 0 <= j < s.len() ==> lo <= #[trigger] s[j] <= hi,
        lo <= v <= hi,
    ensures
        insert_sorted(v, s).len() == s.len() + 1,
        sorted(insert_sorted(v, s)),
        forall|j: int|
            0 <= j < insert_sorted(v, s).len() ==> lo <= #[trigger] insert_sorted(v, s)[j] <= hi,
    decreases s.len(),
{
    if s.len() == 0 {
    } else if v <= s[0] {
        assert(sorted(seq![v] + s)) by {
            assert forall|i: int, j: int|
                0 <= i < j < (seq![v] + s).len() implies (seq![v] + s)[i] <= (seq![v] + s)[j] by {
                if i > 0 {
                    assert(s[i - 1] <= s[j - 1]);
                }
            }
        }
    } else {
        assert(sorted(s.drop_first())) by {
            assert forall|i: int, j: int|
                0 <= i < j < s.drop_first().len() implies s.drop_first()[i]
                    <= s.drop_first()[j] by {
                assert(s[i + 1] <= s[j + 1]);
            }
        }
        assert(forall|j: int|
            0 <= j < s.drop_first().len() ==> s[0] <= #[trigger] s.drop_first()[j] <= hi);
        lemma_insert_sorted_props(s.drop_first(), v, if lo <= s[0] {
            s[0]
        } else {
            lo
        }, hi);
        let rest = insert_sorted(v, s.drop_first());
        assert(sorted(seq![s[0]] + rest)) by {
            assert forall|i: int, j: int|
                0 <= i < j < (seq![s[0]] + rest).len() implies (seq![s[0]] + rest)[i] <= (seq![
                    s[0],
                ] + rest)[j] by {
                if i > 0 {
                    assert(rest[i - 1] <= rest[j - 1]);
                } else {
                    assert(s[0] <= rest[j - 1]);
                }
            }
        }
    }
}

/// Sorting yields a sorted list of the same length whose values stay within
/// any range that covers the input's values.
pub proof fn lemma_sort_ints_props(s: Seq<int>, lo: int, hi: int)
    requires
        forall|j: int| 0 <= j < s.len() ==> lo <= #[trigger] s[j] <= hi,
    ensures
        sort_ints(s).len() == s.len(),
        sorted(sort_ints(s)),
        forall|j: int| 0 <= j < sort_ints(s).len() ==> lo <= #[trigger] sort_ints(s)[j] <= hi,
    decreases s.len(),
{
    if s.len() == 0 {
    } else {
        assert(forall|j: int| 0 <= j < s.drop_last().len() ==> lo <= #[trigger] s.drop_last()[j] <= hi);
        lemma_sort_ints_props(s.drop_last(), lo, hi);
        lemma_insert_sorted_props(sort_ints(s.drop_last()), s.last(), lo, hi);
    }
}

/// The truncated quotient is bounded by `k` whenever the numerator is
/// within `|b| * k`.
proof fn lemma_tdiv_bounds(a: int, b: int, k: int)
    requires
        b != 0,
        0 <= k,
        -((abs(b) as int) * k) <= a <= (abs(b) as int) * k,
    ensures
        -k <= tdiv(a, b) <= k,
{
    let na: int = if a >= 0 {
        a
    } else {
        -a
    };
    let nb: int = abs(b) as int;
    assert(na <= nb * k);
    assert(1 <= nb);
    lemma_div_pos_is_pos(na, nb);
    lemma_div_is_ordered(na, nb * k, nb);
    lemma_div_multiples_vanish(k, nb);
    assert((nb * k) / nb == k);
    assert(0 <= na / nb <= k);
    if a == 0 {
    } else if a > 0 && b > 0 {
        assert(tdiv(a, b) == na / nb);
    } else if a < 0 && b < 0 {
        assert(a * -1 == na && b * -1 == nb);
        assert(tdiv(a, b) == na / nb);
    } else if a < 0 {
        assert(a * -1 == na);
        assert(tdiv(a, b) == (na / nb) * -1);
    } else {
        assert(b * -1 == nb);
        assert(tdiv(a, b) == (na / nb) * -1);
    }
}

/// A crossing column lies within three halves of the vertex range: at most
/// one vertex range away from the edge's first endpoint.
pub proof fn lemma_cross_x_bounds(e: (int, int, int, int), y: int)
    requires
        edge_ok(e),
        edge_crosses(e, y),
        -0x2000_0000 <= y <= 0x2000_0000,
    ensures
        -0x6000_0000 <= cross_x(e, y) <= 0x6000_0000,
{
    let p = y - e.1;
    let q = e.2 - e.0;
    let den = e.3 - e.1;
    let aden: int = if den >= 0 {
        den
    } else {
        -den
    };
    assert(-aden <= p <= aden);
    assert(-(aden * 0x4000_0000) <= p * q <= aden * 0x4000_0000) by (nonlinear_arith)
        requires
            -aden <= p <= aden,
            -0x4000_0000 <= q <= 0x4000_0000,
            0 <= aden,
    ;
    assert(abs(den) as int == aden);
    lemma_tdiv_bounds(p * q, den, 0x4000_0000);
}

/// Truncating division of 64-bit values, exactly `tdiv`.
fn div_trunc(a: i64, b: i64) -> (q: i64)
    requires
        b != 0,
        -0x4000_0000_0000_0000 <= a <= 0x4000_0000_0000_0000,
    ensures
        q == tdiv(a as int, b as int),
{
    proof {
        let na: int = if a >= 0 {
            a as int
        } else {
            -(a as int)
        };
        assert(na <= (abs(b as int) as int) * na) by (nonlinear_arith)
            requires
                0 <= na,
                1 <= abs(b as int) as int,
        ;
        lemma_tdiv_bounds(a as int, b as int, na);
    }
    match a.checked_div(b) {
        Some(q) => q,
        None => vstd::pervasive::unreached(),
    }
}

/// The crossing columns of `edges` at row `y`, in edge order.
fn compute_crossings(edges: &Vec<(i64, i64, i64, i64)>, y: i64) -> (out: Vec<i64>)
    requires
        edges_ok(edges_view(edges@)),
        -0x2000_0000 <= y <= 0x2000_0000,
    ensures
        ints_of(out@) == row_crossings(edges_view(edges@), y as int),
        forall|k: int| 0 <= k < out@.len() ==> -0x6000_0000 <= #[trigger] out@[k] <= 0x6000_0000,
{
    let mut out: Vec<i64> = Vec::new();
    let mut j: usize = 0;
    while j < edges.len()
        invariant
            j <= edges@.len(),
            edges_ok(edges_view(edges@)),
            -0x2000_0000 <= y <= 0x2000_0000,
            ints_of(out@) == row_crossings(edges_view(edges@).take(j as int), y as int),
            forall|k: int|
                0 <= k < out@.len() ==> -0x6000_0000 <= #[trigger] out@[k] <= 0x6000_0000,
        decreases edges@.len() - j,
    {
        let ghost prev = out@;
        let e = edges[j];
        proof {
            assert(edge_view(edges@[j as int]) == edges_view(edges@)[j as int]);
            assert(edge_ok(edges_view(edges@)[j as int]));
        }
        if (e.1 <= y && y < e.3) || (e.3 <= y && y < e.1) {
            proof {
                lemma_cross_x_bounds(edge_view(e), y as int);
                let pd = y as int - e.1 as int;
                let qd = e.2 as int - e.0 as int;
                assert(-0x4000_0000_0000_0000 <= pd * qd <= 0x4000_0000_0000_0000)
                    by (nonlinear_arith)
                    requires
                        -0x4000_0000 <= pd <= 0x4000_0000,
                        -0x4000_0000 <= qd <= 0x4000_0000,
                ;
            }
            let num = (y - e.1) * (e.2 - e.0);
            let den = e.3 - e.1;
            let q = div_trunc(num, den);
            out.push(e.0 + q);
        }
        proof {
            let ev = edges_view(edges@);
            assert(ev.take(j as int + 1).drop_last() =~= ev.take(j as int));
            assert(ev.take(j as int + 1).last() == ev[j as int]);
            if edge_crosses(ev[j as int], y as int) {
                assert(ints_of(out@) =~= ints_of(prev).push(cross_x(ev[j as int], y as int)));
                assert(ints_of(prev).push(cross_x(ev[j as int], y as int)) =~= ints_of(prev) + seq![
                    cross_x(ev[j as int], y as int),
                ]);
            } else {
                assert(ints_of(prev) + Seq::<int>::empty() =~= ints_of(prev));
            }
        }
        j = j + 1;
    }
    proof {
        assert(edges_view(edges@).take(edges@.len() as int) =~= edges_view(edges@));
    }
    out
}

/// Sort a crossing list ascending by insertion.
fn sort_crossings(input: Vec<i64>) -> (out: Vec<i64>)
    ensures
        ints_of(out@) == sort_ints(ints_of(input@)),
        out@.len() == input@.len(),
{
    let mut out: Vec<i64> = Vec::new();
    let mut k: usize = 0;
    while k < input.len()
        invariant
            k <= input@.len(),
            ints_of(out@) == sort_ints(ints_of(input@.take(k as int))),
            out@.len() == k,
        decreases input@.len() - k,
    {
        let val = input[k];
        let ghost before = ints_of(out@);
        let mut idx: usize = 0;
        while idx < out.len() && out[idx] < val
            invariant
                idx <= out@.len(),
                forall|j: int| 0 <= j < idx ==> #[trigger] out@[j] < val,
            decreases out@.len() - idx,
        {
            idx = idx + 1;
        }
        out.insert(idx, val);
        proof {
            lemma_insert_sorted_at(before, val as int, idx as int);
            before.insert_ensures(idx as int, val as int);
            assert(ints_of(out@) =~= before.insert(idx as int, val as int));
            let full = ints_of(input@.take(k as int + 1));
            assert(full.drop_last() =~= ints_of(input@.take(k as int)));
            assert(full.last() == input@[k as int] as int);
            assert(ints_of(out@) == sort_ints(full));
        }
        k = k + 1;
    }
    proof {
        assert(input@.take(input@.len() as int) =~= input@);
    }
    out
}

/// Like `in_spans`, over the painted pairs that start below index `n` only.
spec fn in_spans_upto(c: Seq<int>, x: int, n: int) -> bool {
    exists|i: int|
        0 <= i < n && i + 1 < c.len() && i % 2 == 0 && #[trigger] c[i] <= x && x <= c[i + 1]
}

/// Paint one scanline: compute the row's edge crossings, sort them, and
/// draw the alternating spans with the grid's current draw color.
#[verifier::loop_isolation(false)]
#[verifier::rlimit(100)]
pub fn fill_scanline(fb: &mut Framebuffer, edges: &Vec<(i64, i64, i64, i64)>, y: i64)
    requires
        old(fb).wf(),
        edges_ok(edges_view(edges@)),
        -0x2000_0000 <= y <= 0x2000_0000,
    ensures
        final(fb).wf(),
        final(fb).same_config(old(fb)),
        final(fb).cells().len() == old(fb).cells().len(),
        forall|px: int, py: int|
            0 <= px < old(fb).width && 0 <= py < old(fb).height ==> #[trigger] cell_at(
                final(fb).cells(),
                old(fb).width as int,
                px,
                py,
            ) == (if py == y as int && in_spans(
                sort_ints(row_crossings(edges_view(edges@), y as int)),
                px,
            ) {
                old(fb).draw()
            } else {
                cell_at(old(fb).cells(), old(fb).width as int, px, py)
            }),
{
    let cross = compute_crossings(edges, y);
    let ghost raw = row_crossings(edges_view(edges@), y as int);
    proof {
        lemma_sort_ints_props(raw, -0x6000_0000, 0x6000_0000);
    }
    let cross = sort_crossings(cross);
    let ghost sc = sort_ints(raw);
    let n = cross.len();
    let mut i: usize = 0;
    let mut fill = true;
    while i < n
        invariant
            fb.wf(),
            fb.same_config(old(fb)),
            fb.cells().len() == old(fb).cells().len(),
            i <= n,
            i < n ==> fill == (i % 2 == 0),
            forall|px: int, py: int|
                0 <= px < old(fb).width && 0 <= py < old(fb).height ==> #[trigger] cell_at(
                    fb.cells(),
                    old(fb).width as int,
                    px,
                    py,
                ) == (if py == y as int && in_spans_upto(sc, px, i as int) {
                    old(fb).draw()
                } else {
                    cell_at(old(fb).cells(), old(fb).width as int, px, py)
                }),
        decreases n - i,
    {
        if i + 1 < n {
            if fill {
                let xa = cross[i];
                let xb = cross[i + 1];
                proof {
                    assert(xa as int == ints_of(cross@)[i as int]);
                    assert(xb as int == ints_of(cross@)[i as int + 1]);
                    assert(-0x6000_0000 <= sc[i as int] <= 0x6000_0000);
                    assert(-0x6000_0000 <= sc[i as int + 1] <= 0x6000_0000);
                }
                let ghost mid = fb.cells();
                fb.line(xa as isize, y as isize, xb as isize, y as isize);
                proof {
                    lemma_line_points_horizontal(xa as int, y as int, xb as int);
                    assert(xa as int == sc[i as int] && xb as int == sc[i as int + 1]);
                    assert(sc[i as int] <= sc[i as int + 1]);
                    assert forall|px: int, py: int|
                        0 <= px < old(fb).width && 0 <= py < old(fb).height implies #[trigger]
                    cell_at(fb.cells(), old(fb).width as int, px, py) == (if py == y as int
                        && in_spans_upto(sc, px, i as int + 1) {
                        old(fb).draw()
                    } else {
                        cell_at(old(fb).cells(), old(fb).width as int, px, py)
                    }) by {
                        if line_points(xa as int, y as int, xb as int, y as int).contains(
                            (px, py),
                        ) {
                            assert(py == y as int && sc[i as int] <= px <= sc[i as int + 1]);
                            assert(in_spans_upto(sc, px, i as int + 1));
                        } else {
                            if py == y as int && in_spans_upto(sc, px, i as int + 1)
                                && !in_spans_upto(sc, px, i as int) {
                                let j = choose|j: int|
                                    0 <= j < i as int + 1 && j + 1 < sc.len() && j % 2 == 0
                                        && #[trigger] sc[j] <= px && px <= sc[j + 1];
                                assert(j == i as int);
                                assert(false);
                            }
                        }
                    }
                }
            } else {
                proof {
                    assert forall|px: int|
                        in_spans_upto(sc, px, i as int + 1) implies in_spans_upto(
                        sc,
                        px,
                        i as int,
                    ) by {
                        let j = choose|j: int|
                            0 <= j < i as int + 1 && j + 1 < sc.len() && j % 2 == 0 && #[trigger]
                        sc[j] <= px && px <= sc[j + 1];
                        assert(j < i as int);
                    }
                }
            }
            fill = !fill;
        } else {
            proof {
                assert forall|px: int|
                    in_spans_upto(sc, px, i as int + 1) implies in_spans_upto(
                    sc,
                    px,
                    i as int,
                ) by {
                    let j = choose|j: int|
                        0 <= j < i as int + 1 && j + 1 < sc.len() && j % 2 == 0 && #[trigger]
                    sc[j] <= px && px <= sc[j + 1];
                    assert(j < i as int);
                }
            }
        }
        i = i + 1;
    }
    proof {
        assert forall|px: int| in_spans(sc, px) implies in_spans_upto(sc, px, n as int) by {
            let j = choose|j: int|
                0 <= j && j + 1 < sc.len() && j % 2 == 0 && #[trigger] sc[j] <= px && px <= sc[j
                    + 1];
            assert(0 <= j < n as int && sc[j] <= px && px <= sc[j + 1]);
        }
    }
}

} // verus!
