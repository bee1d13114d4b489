use vstd::arithmetic::div_mod::{lemma_div_is_ordered, lemma_fundamental_div_mod, lemma_mod_bound};
use vstd::math::{abs, max, min};
use vstd::prelude::*;

verus! {

/// Pixel coordinates as mathematical integers.
pub open spec fn points_view(v: Seq<(usize, usize)>) -> Seq<(int, int)> {
    v.map_values(|p: (usize, usize)| (p.0 as int, p.1 as int))
}

/// Number of vertical steps taken after `k` columns of a run that rises by
/// `rise` over `run` columns: `k * rise / run`, rounded to the nearest integer.
pub open spec fn steps(k: int, rise: int, run: int) -> int {
    (2 * k * rise + run) / (2 * run)
}

/// `y` moved by `j` rows, downwards when `up` holds (rows grow downwards).
pub open spec fn shift(y: int, up: bool, j: int) -> int {
    if up {
        y + j
    } else {
        y - j
    }
}

/// The pixels visited in column `k` of a left-to-right run that starts at
/// `(x0, y0)` and moves vertically towards larger rows when `up` holds: the
/// column's first pixel, then once more each pixel that the run leaves on its
/// way to the next column.
pub open spec fn column(x0: int, y0: int, run: int, rise: int, up: bool, k: int) -> Seq<(int, int)> {
    let y = shift(y0, up, steps(k, rise, run));
    let n = steps(k + 1, rise, run) - steps(k, rise, run);
    seq![(x0 + k, y)] + Seq::new(n as nat, |j: int| (x0 + k, shift(y, up, j)))
}

/// The pixels visited in the first `k` columns of a run.
pub open spec fn columns(x0: int, y0: int, run: int, rise: int, up: bool, k: nat) -> Seq<(int, int)>
    decreases k,
{
    if k == 0 {
        seq![]
    } else {
        columns(x0, y0, run, rise, up, (k - 1) as nat) + column(x0, y0, run, rise, up, k - 1)
    }
}

/// The pixels traced between two points of the canvas. A vertical segment
/// visits each row from the upper end up to, not including, the lower end
/// (a single point is visited once). Any other segment is walked from its left
/// end, one column at a time, up to but not including its right end.
pub open spec fn trace(x1: int, y1: int, x2: int, y2: int) -> Seq<(int, int)> {
    if x1 == x2 {
        let lo = min(y1, y2);
        let hi = max(y1, y2);
        if lo == hi {
            seq![(x1, lo)]
        } else {
            Seq::new((hi - lo) as nat, |i: int| (x1, lo + i))
        }
    } else {
        let (p, q, r, s) = if x2 < x1 {
            (x2, y2, x1, y1)
        } else {
            (x1, y1, x2, y2)
        };
        columns(p, q, r - p, abs(s - q) as int, s > q, (r - p) as nat)
    }
}

/// For `b > 0`, `m * b <= a` implies `m <= a / b`.
pub(crate) proof fn lemma_div_at_least(a: int, b: int, m: int)
    requires
        b > 0,
        m * b <= a,
    ensures
        m <= a / b,
{
    lemma_fundamental_div_mod(a, b);
    lemma_mod_bound(a, b);
    let q = a / b;
    let r = a % b;
    assert(m <= q) by (nonlinear_arith)
        requires
            a == b * q + r,
            0 <= r < b,
            m * b <= a,
            b > 0,
    ;
}

/// For `b > 0`, `a < m * b` implies `a / b < m`.
pub(crate) proof fn lemma_div_below(a: int, b: int, m: int)
    requires
        b > 0,
        a < m * b,
    ensures
        a / b < m,
{
    lemma_fundamental_div_mod(a, b);
    lemma_mod_bound(a, b);
    let q = a / b;
    let r = a % b;
    assert(q < m) by (nonlinear_arith)
        requires
            a == b * q + r,
            0 <= r < b,
            a < m * b,
            b > 0,
    ;
}

/// A run takes no steps before its first column, all of its rise by its last
/// column, and never steps back.
proof fn lemma_steps_range(k: int, rise: int, run: int)
    requires
        0 <= k <= run,
        0 < run,
        0 <= rise,
    ensures
        0 <= steps(k, rise, run) <= rise,
        steps(0, rise, run) == 0,
        steps(run, rise, run) == rise,
        k < run ==> steps(k, rise, run) <= steps(k + 1, rise, run),
{
    if k < run {
        assert(2 * k * rise <= 2 * (k + 1) * rise) by (nonlinear_arith)
            requires
                0 <= rise,
        ;
        lemma_div_is_ordered(2 * k * rise + run, 2 * (k + 1) * rise + run, 2 * run);
    }
    assert(0 <= 2 * k * rise <= 2 * run * rise) by (nonlinear_arith)
        requires
            0 <= k <= run,
            0 <= rise,
    ;
    assert((rise + 1) * (2 * run) == 2 * run * rise + 2 * run) by (nonlinear_arith);
    assert(rise * (2 * run) == 2 * run * rise) by (nonlinear_arith);
    assert(2 * 0 * rise + run < 1 * (2 * run)) by (nonlinear_arith)
        requires
            0 < run,
    ;
    lemma_div_at_least(2 * k * rise + run, 2 * run, 0);
    lemma_div_below(2 * k * rise + run, 2 * run, rise + 1);
    lemma_div_below(2 * 0 * rise + run, 2 * run, 1);
    lemma_div_at_least(2 * run * rise + run, 2 * run, rise);
    lemma_div_below(2 * run * rise + run, 2 * run, rise + 1);
}

proof fn lemma_points_view_push(v: Seq<(usize, usize)>, p: (usize, usize))
    ensures
        points_view(v.push(p)) =~= points_view(v).push((p.0 as int, p.1 as int)),
{
}

/// Traces the pixels between two points of the canvas.
fn rasterize(x1: usize, y1: usize, x2: usize, y2: usize) -> (r: Vec<(usize, usize)>)
    requires
        x1 <= i32::MAX,
        x2 <= i32::MAX,
        y1 <= i32::MAX,
        y2 <= i32::MAX,
    ensures
        points_view(r@) == trace(x1 as int, y1 as int, x2 as int, y2 as int),
        forall|i: int|
            #![trigger r@[i]]
            0 <= i < r.len() ==> min(x1 as int, x2 as int) <= r@[i].0 <= max(x1 as int, x2 as int)
                && min(y1 as int, y2 as int) <= r@[i].1 <= max(y1 as int, y2 as int),
{
    let mut out: Vec<(usize, usize)> = Vec::new();
    if x1 == x2 {
        let (lo, hi) = if y2 < y1 {
            (y2, y1)
        } else {
            (y1, y2)
        };
        let end: usize = if lo == hi {
            hi + 1
        } else {
            hi
        };
        let mut y: usize = lo;
        while y < end
            invariant
                lo <= y <= end,
                end <= hi + 1,
                lo == min(y1 as int, y2 as int),
                hi == max(y1 as int, y2 as int),
                end == (if lo == hi { hi + 1 } else { hi as int }),
                points_view(out@) =~= Seq::new((y - lo) as nat, |i: int| (x1 as int, lo + i)),
                forall|i: int|
                    #![trigger out@[i]]
                    0 <= i < out.len() ==> out@[i].0 == x1 && lo <= out@[i].1 <= hi,
            decreases end - y,
        {
            proof {
                lemma_points_view_push(out@, (x1, y));
            }
            out.push((x1, y));
            y = y + 1;
        }
        return out;
    }
    let (p, q, r, s) = if x2 < x1 {
        (x2, y2, x1, y1)
    } else {
        (x1, y1, x2, y2)
    };
    let run: i128 = (r - p) as i128;
    let rise: i128 = if s > q {
        (s - q) as i128
    } else {
        (q - s) as i128
    };
    let up: bool = s > q;
    proof {
        lemma_steps_range(0, rise as int, run as int);
    }
    let mut err: i128 = 0;
    let mut x: usize = p;
    let mut y: usize = q;
    let ghost mut n: int = 0;
    proof {
        assert(2 * (x - p) * rise - 2 * run * n == 0) by (nonlinear_arith)
            requires
                x == p,
                n == 0,
        ;
    }
    while x < r
        invariant
            p < r,
            run == r - p,
            rise == abs(s - q),
            up == (s > q),
            p <= x <= r,
            p == min(x1 as int, x2 as int),
            r == max(x1 as int, x2 as int),
            (q == y1 && s == y2) || (q == y2 && s == y1),
            q <= i32::MAX,
            s <= i32::MAX,
            r <= i32::MAX,
            n == steps(x - p, rise as int, run as int),
            0 <= n <= rise,
            y == shift(q as int, up, n),
            err == 2 * (x - p) * rise - 2 * run * n,
            -run <= err < run,
            points_view(out@) =~= columns(p as int, q as int, run as int, rise as int, up, (x - p) as nat),
            forall|i: int|
                #![trigger out@[i]]
                0 <= i < out.len() ==> p <= out@[i].0 < r && min(y1 as int, y2 as int) <= out@[i].1
                    <= max(y1 as int, y2 as int),
        decreases r - x,
    {
        let ghost k: int = x - p;
        let ghost start: int = n;
        let ghost prefix = points_view(out@);
        proof {
            lemma_steps_range(k, rise as int, run as int);
            lemma_steps_range(k + 1, rise as int, run as int);
            lemma_points_view_push(out@, (x, y));
            assert(2 * (k + 1) * rise == 2 * k * rise + 2 * rise) by (nonlinear_arith);
        }
        out.push((x, y));
        err = err + 2 * rise;
        while err >= run
            invariant
                p <= x < r,
                k == x - p,
                p == min(x1 as int, x2 as int),
                r == max(x1 as int, x2 as int),
                (q == y1 && s == y2) || (q == y2 && s == y1),
                run == r - p,
                rise == abs(s - q),
                up == (s > q),
                    q <= i32::MAX,
                s <= i32::MAX,
                start == steps(k, rise as int, run as int),
                start <= n <= steps(k + 1, rise as int, run as int),
                0 <= steps(k + 1, rise as int, run as int) <= rise,
                y == shift(q as int, up, n),
                err == 2 * (k + 1) * rise - 2 * run * n,
                -run <= err < run + 2 * rise,
                points_view(out@) =~= prefix + seq![(x as int, shift(q as int, up, start))] + Seq::new(
                    (n - start) as nat,
                    |j: int| (x as int, shift(shift(q as int, up, start), up, j)),
                ),
                forall|i: int|
                    #![trigger out@[i]]
                    0 <= i < out.len() ==> p <= out@[i].0 < r && min(y1 as int, y2 as int)
                        <= out@[i].1 <= max(y1 as int, y2 as int),
            decreases steps(k + 1, rise as int, run as int) - n,
        {
            proof {
                assert(2 * run * (n + 1) == 2 * run * n + 2 * run) by (nonlinear_arith);
                assert((n + 1) * (2 * run) == 2 * run * n + 2 * run) by (nonlinear_arith);
                lemma_div_at_least(2 * (k + 1) * rise + run, 2 * run as int, n + 1);
            }
            proof {
                lemma_points_view_push(out@, (x, y));
            }
            out.push((x, y));
            if up {
                y = y + 1;
            } else {
                y = y - 1;
            }
            err = err - 2 * run;
            proof {
                n = n + 1;
            }
        }
        proof {
            assert((n + 1) * (2 * run) == 2 * run * n + 2 * run) by (nonlinear_arith);
            lemma_div_below(2 * (k + 1) * rise + run, 2 * run as int, n + 1);
            assert(column(p as int, q as int, run as int, rise as int, up, k) =~= seq![
                (x as int, shift(q as int, up, start)),
            ] + Seq::new((n - start) as nat, |j: int| (x as int, shift(shift(q as int, up, start), up, j))));
        }
        x = x + 1;
    }
    out
}

/// The absolute value of `x`.
pub open spec fn absolute(x: int) -> int {
    if x < 0 {
        -x
    } else {
        x
    }
}

/// Whether `(x, y)` lies on a canvas of `width` by `height` pixels.
pub open spec fn in_canvas(width: int, height: int, x: int, y: int) -> bool {
    0 <= x < width && 0 <= y < height
}

/// `a / b` rounded to the nearest integer, halves upwards (for `b > 0`).
pub open spec fn round_div(a: int, b: int) -> int {
    (2 * a + b) / (2 * b)
}

/// Where a coordinate starting at `c` and moving by `d != 0` enters the band
/// `[0, hi]`, in units of `1 / |d|` of the move.
pub open spec fn slab_entry(c: int, d: int, hi: int) -> int {
    if d > 0 {
        -c
    } else {
        c - hi
    }
}

/// Where a coordinate starting at `c` and moving by `d != 0` leaves the band
/// `[0, hi]`, in units of `1 / |d|` of the move.
pub open spec fn slab_exit(c: int, d: int, hi: int) -> int {
    if d > 0 {
        hi - c
    } else {
        c
    }
}

/// Positions along a segment that is neither horizontal nor vertical are
/// measured in units of `1 / (|dx| * |dy|)` of its length: 0 is its first
/// endpoint, `|dx| * |dy|` its second.
pub open spec fn segment_scale(x1: int, y1: int, x2: int, y2: int) -> int {
    absolute(x2 - x1) * absolute(y2 - y1)
}

/// The first position of the segment inside the canvas (slab test, kept to
/// the segment itself).
pub open spec fn entry_param(width: int, height: int, x1: int, y1: int, x2: int, y2: int) -> int {
    let dx = x2 - x1;
    let dy = y2 - y1;
    max(0, max(slab_entry(x1, dx, width - 1) * absolute(dy), slab_entry(y1, dy, height - 1) * absolute(dx)))
}

/// The last position of the segment inside the canvas (slab test, kept to the
/// segment itself).
pub open spec fn exit_param(width: int, height: int, x1: int, y1: int, x2: int, y2: int) -> int {
    let dx = x2 - x1;
    let dy = y2 - y1;
    min(
        segment_scale(x1, y1, x2, y2),
        min(slab_exit(x1, dx, width - 1) * absolute(dy), slab_exit(y1, dy, height - 1) * absolute(dx)),
    )
}

/// The pixel nearest to position `t` of the segment.
pub open spec fn point_at(x1: int, y1: int, x2: int, y2: int, t: int) -> (int, int) {
    let m = segment_scale(x1, y1, x2, y2);
    (round_div(x1 * m + t * (x2 - x1), m), round_div(y1 * m + t * (y2 - y1), m))
}

/// The endpoints of the part of a segment that a canvas shows, or `None` when
/// the segment misses the canvas. Horizontal and vertical segments are cut to
/// the canvas directly, with their ends in increasing order. Any other segment
/// with an end off the canvas is cut where it enters and where it leaves it.
pub open spec fn clipped_segment(width: int, height: int, x1: int, y1: int, x2: int, y2: int) -> Option<
    (int, int, int, int),
> {
    if width <= 0 || height <= 0 || (x1 < 0 && x2 < 0) || (y1 < 0 && y2 < 0) || (x1 >= width && x2
        >= width) || (y1 >= height && y2 >= height) {
        None
    } else if y1 == y2 {
        Some((max(0, min(x1, x2)), y1, min(max(x1, x2), width - 1), y1))
    } else if x1 == x2 {
        Some((x1, max(0, min(y1, y2)), x1, min(max(y1, y2), height - 1)))
    } else if in_canvas(width, height, x1, y1) && in_canvas(width, height, x2, y2) {
        Some((x1, y1, x2, y2))
    } else {
        let t_in = entry_param(width, height, x1, y1, x2, y2);
        let t_out = exit_param(width, height, x1, y1, x2, y2);
        if t_out < t_in {
            None
        } else {
            let a = point_at(x1, y1, x2, y2, t_in);
            let b = point_at(x1, y1, x2, y2, t_out);
            Some((a.0, a.1, b.0, b.1))
        }
    }
}

/// The pixels that a segment covers on a canvas, in the order they are drawn.
pub open spec fn line_points(width: int, height: int, x1: int, y1: int, x2: int, y2: int) -> Seq<
    (int, int),
> {
    match clipped_segment(width, height, x1, y1, x2, y2) {
        None => seq![],
        Some(c) => trace(c.0, c.1, c.2, c.3),
    }
}

/// For `m > 0`, a value between `lo * m` and `hi * m` rounds, after division by
/// `m`, to a value between `lo` and `hi`.
pub(crate) proof fn lemma_round_between(a: int, m: int, lo: int, hi: int)
    requires
        m > 0,
        lo * m <= a <= hi * m,
    ensures
        lo <= round_div(a, m) <= hi,
{
    assert(lo * (2 * m) <= 2 * a + m) by (nonlinear_arith)
        requires
            m > 0,
            lo * m <= a,
    ;
    assert(2 * a + m < (hi + 1) * (2 * m)) by (nonlinear_arith)
        requires
            m > 0,
            a <= hi * m,
    ;
    lemma_div_at_least(2 * a + m, 2 * m, lo);
    lemma_div_below(2 * a + m, 2 * m, hi + 1);
}

/// A position between a coordinate's entry into and exit from the band
/// `[0, hi]` gives a coordinate in the band, between the segment's ends.
proof fn lemma_axis(c1: int, c2: int, hi: int, o: int, t: int)
    requires
        c1 != c2,
        o > 0,
        slab_entry(c1, c2 - c1, hi) * o <= t <= slab_exit(c1, c2 - c1, hi) * o,
        0 <= t <= absolute(c2 - c1) * o,
    ensures
        absolute(c2 - c1) * o > 0,
        0 <= c1 * (absolute(c2 - c1) * o) + t * (c2 - c1),
        0 <= round_div(c1 * (absolute(c2 - c1) * o) + t * (c2 - c1), absolute(c2 - c1) * o) <= hi,
        min(c1, c2) <= round_div(c1 * (absolute(c2 - c1) * o) + t * (c2 - c1), absolute(c2 - c1) * o) <= max(
            c1,
            c2,
        ),
{
    let d = c2 - c1;
    let m = absolute(d) * o;
    let a = c1 * m + t * d;
    assert(m > 0) by (nonlinear_arith)
        requires
            d != 0,
            o > 0,
            m == absolute(d) * o,
    ;
    if d > 0 {
        assert(0 <= a <= hi * m && c1 * m <= a <= c2 * m) by (nonlinear_arith)
            requires
                d > 0,
                m == d * o,
                a == c1 * m + t * d,
                -c1 * o <= t <= (hi - c1) * o,
                0 <= t <= d * o,
                c2 == c1 + d,
        ;
        lemma_round_between(a, m, 0, hi);
        lemma_round_between(a, m, c1, c2);
    } else {
        assert(0 <= a <= hi * m && c2 * m <= a <= c1 * m) by (nonlinear_arith)
            requires
                d < 0,
                m == -d * o,
                a == c1 * m + t * d,
                (c1 - hi) * o <= t <= c1 * o,
                0 <= t <= -d * o,
                c2 == c1 + d,
        ;
        lemma_round_between(a, m, 0, hi);
        lemma_round_between(a, m, c2, c1);
    }
}

/// A position of a segment between its entry into and exit from the canvas
/// is a pixel of the canvas, between the segment's ends.
proof fn lemma_point_on_canvas(width: int, height: int, x1: int, y1: int, x2: int, y2: int, t: int)
    requires
        width > 0,
        height > 0,
        x1 != x2,
        y1 != y2,
        entry_param(width, height, x1, y1, x2, y2) <= t <= exit_param(width, height, x1, y1, x2, y2),
    ensures
        segment_scale(x1, y1, x2, y2) > 0,
        0 <= x1 * segment_scale(x1, y1, x2, y2) + t * (x2 - x1),
        0 <= y1 * segment_scale(x1, y1, x2, y2) + t * (y2 - y1),
        in_canvas(width, height, point_at(x1, y1, x2, y2, t).0, point_at(x1, y1, x2, y2, t).1),
        min(x1, x2) <= point_at(x1, y1, x2, y2, t).0 <= max(x1, x2),
        min(y1, y2) <= point_at(x1, y1, x2, y2, t).1 <= max(y1, y2),
{
    let adx = absolute(x2 - x1);
    let ady = absolute(y2 - y1);
    assert(ady * adx == adx * ady) by (nonlinear_arith);
    lemma_axis(x1, x2, width - 1, ady, t);
    lemma_axis(y1, y2, height - 1, adx, t);
}

/// `a * b` stays well inside `i128` for the sizes that clipping multiplies.
proof fn lemma_product_bound(a: int, b: int)
    requires
        -73786976294838206464 <= a <= 73786976294838206464,
        0 <= b <= 8589934592,
    ensures
        -633825300114114700748351602688 <= a * b <= 633825300114114700748351602688,
{
    assert(-633825300114114700748351602688 <= a * b <= 633825300114114700748351602688)
        by (nonlinear_arith)
        requires
            -73786976294838206464 <= a <= 73786976294838206464,
            0 <= b <= 8589934592,
    ;
}

/// The position at which a segment that is neither horizontal nor vertical
/// enters the canvas.
fn entry_parameter(width: usize, height: usize, x1: i32, y1: i32, x2: i32, y2: i32) -> (t: i128)
    requires
        width > 0,
        height > 0,
        x1 != x2,
        y1 != y2,
    ensures
        t == entry_param(width as int, height as int, x1 as int, y1 as int, x2 as int, y2 as int),
{
    let dx: i128 = x2 as i128 - x1 as i128;
    let dy: i128 = y2 as i128 - y1 as i128;
    let adx: i128 = if dx < 0 {
        -dx
    } else {
        dx
    };
    let ady: i128 = if dy < 0 {
        -dy
    } else {
        dy
    };
    let w: i128 = width as i128 - 1;
    let h: i128 = height as i128 - 1;
    let ex: i128 = if dx > 0 {
        -(x1 as i128)
    } else {
        x1 as i128 - w
    };
    let ey: i128 = if dy > 0 {
        -(y1 as i128)
    } else {
        y1 as i128 - h
    };
    proof {
        lemma_product_bound(ex as int, ady as int);
        lemma_product_bound(ey as int, adx as int);
    }
    let tx: i128 = ex * ady;
    let ty: i128 = ey * adx;
    let later: i128 = if tx >= ty {
        tx
    } else {
        ty
    };
    if 0 >= later {
        0
    } else {
        later
    }
}

/// The position at which a segment that is neither horizontal nor vertical
/// leaves the canvas.
fn exit_parameter(width: usize, height: usize, x1: i32, y1: i32, x2: i32, y2: i32) -> (t: i128)
    requires
        width > 0,
        height > 0,
        x1 != x2,
        y1 != y2,
    ensures
        t == exit_param(width as int, height as int, x1 as int, y1 as int, x2 as int, y2 as int),
{
    let dx: i128 = x2 as i128 - x1 as i128;
    let dy: i128 = y2 as i128 - y1 as i128;
    let adx: i128 = if dx < 0 {
        -dx
    } else {
        dx
    };
    let ady: i128 = if dy < 0 {
        -dy
    } else {
        dy
    };
    let w: i128 = width as i128 - 1;
    let h: i128 = height as i128 - 1;
    let ex: i128 = if dx > 0 {
        w - x1 as i128
    } else {
        x1 as i128
    };
    let ey: i128 = if dy > 0 {
        h - y1 as i128
    } else {
        y1 as i128
    };
    proof {
        lemma_product_bound(ex as int, ady as int);
        lemma_product_bound(ey as int, adx as int);
        lemma_product_bound(adx as int, ady as int);
    }
    let tx: i128 = ex * ady;
    let ty: i128 = ey * adx;
    let earlier: i128 = if tx <= ty {
        tx
    } else {
        ty
    };
    let whole: i128 = adx * ady;
    if whole <= earlier {
        whole
    } else {
        earlier
    }
}

/// The pixel nearest to position `t` of a segment, where `t` lies where the
/// segment crosses the canvas.
fn point_at_parameter(width: usize, height: usize, x1: i32, y1: i32, x2: i32, y2: i32, t: i128) -> (r: (
    i32,
    i32,
))
    requires
        width > 0,
        height > 0,
        x1 != x2,
        y1 != y2,
        entry_param(width as int, height as int, x1 as int, y1 as int, x2 as int, y2 as int) <= t
            <= exit_param(width as int, height as int, x1 as int, y1 as int, x2 as int, y2 as int),
    ensures
        (r.0 as int, r.1 as int) == point_at(x1 as int, y1 as int, x2 as int, y2 as int, t as int),
        in_canvas(width as int, height as int, r.0 as int, r.1 as int),
{
    proof {
        lemma_point_on_canvas(
            width as int,
            height as int,
            x1 as int,
            y1 as int,
            x2 as int,
            y2 as int,
            t as int,
        );
    }
    let dx: i128 = x2 as i128 - x1 as i128;
    let dy: i128 = y2 as i128 - y1 as i128;
    let adx: i128 = if dx < 0 {
        -dx
    } else {
        dx
    };
    let ady: i128 = if dy < 0 {
        -dy
    } else {
        dy
    };
    proof {
        lemma_product_bound(adx as int, ady as int);
        assert(adx * ady <= 18446744073709551616) by (nonlinear_arith)
            requires
                0 <= adx <= 4294967296,
                0 <= ady <= 4294967296,
        ;
    }
    let m: i128 = adx * ady;
    proof {
        assert(m == segment_scale(x1 as int, y1 as int, x2 as int, y2 as int));
        assert(0 <= t <= m);
        assert(-633825300114114700748351602688 <= t * dx <= 633825300114114700748351602688
            && -633825300114114700748351602688 <= t * dy <= 633825300114114700748351602688
            && -633825300114114700748351602688 <= x1 * m <= 633825300114114700748351602688
            && -633825300114114700748351602688 <= y1 * m <= 633825300114114700748351602688)
            by (nonlinear_arith)
            requires
                0 <= t <= m,
                0 <= m <= 18446744073709551616,
                -4294967296 <= dx <= 4294967296,
                -4294967296 <= dy <= 4294967296,
                -2147483648 <= x1 <= 2147483647,
                -2147483648 <= y1 <= 2147483647,
        ;
    }
    let ax: i128 = x1 as i128 * m + t * dx;
    let ay: i128 = y1 as i128 * m + t * dy;
    let rx: u128 = (2 * ax + m) as u128 / (2 * m) as u128;
    let ry: u128 = (2 * ay + m) as u128 / (2 * m) as u128;
    (rx as i32, ry as i32)
}

/// An RGB colour.
#[derive(Clone, Copy)]
pub struct Color {
    pub red: u8,
    pub green: u8,
    pub blue: u8,
}

impl Color {
    /// Channel `c` of the colour: red, green, then blue.
    pub open spec fn channel(self, c: int) -> u8 {
        if c == 0 {
            self.red
        } else if c == 1 {
            self.green
        } else {
            self.blue
        }
    }
}

/// Index of pixel `p` in a row-major canvas `width` pixels wide.
pub open spec fn pixel_index(p: (int, int), width: int) -> int {
    p.1 * width + p.0
}

/// Whether one of the first `k` pixels of `points` is the pixel at index `i`.
pub open spec fn covers(points: Seq<(int, int)>, k: int, width: int, i: int) -> bool {
    exists|j: int| 0 <= j < k && #[trigger] pixel_index(points[j], width) == i
}

/// Draws line segments in one colour, the pen, onto RGB canvases.
pub struct Painter {
    pen: Color,
}

/// Pixel `(x, y)` of a `width` by `height` canvas has its three bytes inside a
/// buffer of `width * height * 3` bytes.
pub(crate) proof fn lemma_pixel_in_buffer(x: int, y: int, width: int, height: int)
    requires
        0 <= x < width,
        0 <= y < height,
    ensures
        0 <= (y * width + x) * 3,
        (y * width + x) * 3 + 2 < width * height * 3,
{
    assert(0 <= y * width + x < width * height) by (nonlinear_arith)
        requires
            0 <= x < width,
            0 <= y < height,
    ;
}

impl Painter {
    /// The colour that lines are drawn in.
    pub closed spec fn pen(self) -> Color {
        self.pen
    }

    /// A painter whose pen is black.
    pub fn new() -> (r: Painter)
        ensures
            r.pen() == (Color { red: 0, green: 0, blue: 0 }),
    {
        Painter { pen: Color { red: 0, green: 0, blue: 0 } }
    }

    /// Selects the colour of the lines that follow.
    pub fn set_pen(&mut self, red: u8, green: u8, blue: u8)
        ensures
            final(self).pen() == (Color { red, green, blue }),
    {
        self.pen = Color { red, green, blue };
    }

    /// Where a segment that is neither horizontal nor vertical enters the
    /// canvas, or `None` when it misses the canvas.
    fn clip_line_from_outside(width: usize, height: usize, x1: i32, y1: i32, x2: i32, y2: i32) -> (r:
        Option<(i32, i32)>)
        requires
            width > 0,
            height > 0,
            x1 != x2,
            y1 != y2,
        ensures
            ({
                let t_in = entry_param(width as int, height as int, x1 as int, y1 as int, x2 as int, y2 as int);
                let t_out = exit_param(width as int, height as int, x1 as int, y1 as int, x2 as int, y2 as int);
                match r {
                    None => t_out < t_in,
                    Some(p) => t_in <= t_out && (p.0 as int, p.1 as int) == point_at(
                        x1 as int,
                        y1 as int,
                        x2 as int,
                        y2 as int,
                        t_in,
                    ) && in_canvas(width as int, height as int, p.0 as int, p.1 as int),
                }
            }),
    {
        let t_in = entry_parameter(width, height, x1, y1, x2, y2);
        let t_out = exit_parameter(width, height, x1, y1, x2, y2);
        if t_out < t_in {
            None
        } else {
            Some(point_at_parameter(width, height, x1, y1, x2, y2, t_in))
        }
    }

    /// Where a segment that is neither horizontal nor vertical, and that
    /// meets the canvas, leaves it.
    fn clip_line_from_inside(width: usize, height: usize, x1: i32, y1: i32, x2: i32, y2: i32) -> (r: (
        i32,
        i32,
    ))
        requires
            width > 0,
            height > 0,
            x1 != x2,
            y1 != y2,
            entry_param(width as int, height as int, x1 as int, y1 as int, x2 as int, y2 as int)
                <= exit_param(width as int, height as int, x1 as int, y1 as int, x2 as int, y2 as int),
        ensures
            (r.0 as int, r.1 as int) == point_at(
                x1 as int,
                y1 as int,
                x2 as int,
                y2 as int,
                exit_param(width as int, height as int, x1 as int, y1 as int, x2 as int, y2 as int),
            ),
            in_canvas(width as int, height as int, r.0 as int, r.1 as int),
    {
        let t_out = exit_parameter(width, height, x1, y1, x2, y2);
        point_at_parameter(width, height, x1, y1, x2, y2, t_out)
    }

    /// The pixels of a `width` by `height` canvas that the segment from
    /// `(x1, y1)` to `(x2, y2)` covers, in drawing order. The ends may lie off
    /// the canvas.
    pub fn line_foreach(width: usize, height: usize, x1: i32, y1: i32, x2: i32, y2: i32) -> (r: Vec<
        (usize, usize),
    >)
        ensures
            points_view(r@) == line_points(
                width as int,
                height as int,
                x1 as int,
                y1 as int,
                x2 as int,
                y2 as int,
            ),
            forall|i: int| #![trigger r@[i]] 0 <= i < r.len() ==> r@[i].0 < width && r@[i].1 < height,
    {
        let w: i128 = width as i128;
        let h: i128 = height as i128;
        if width == 0 || height == 0 || (x1 < 0 && x2 < 0) || (y1 < 0 && y2 < 0) || (x1 as i128 >= w
            && x2 as i128 >= w) || (y1 as i128 >= h && y2 as i128 >= h) {
            return Vec::new();
        }
        let (a, b, c, d): (i32, i32, i32, i32) = if y1 == y2 {
            let lo: i32 = if x1 < x2 {
                x1
            } else {
                x2
            };
            let hi: i32 = if x1 < x2 {
                x2
            } else {
                x1
            };
            let left: i32 = if 0 >= lo {
                0
            } else {
                lo
            };
            let right: i32 = if hi as i128 <= w - 1 {
                hi
            } else {
                (w - 1) as i32
            };
            (left, y1, right, y1)
        } else if x1 == x2 {
            let lo: i32 = if y1 < y2 {
                y1
            } else {
                y2
            };
            let hi: i32 = if y1 < y2 {
                y2
            } else {
                y1
            };
            let top: i32 = if 0 >= lo {
                0
            } else {
                lo
            };
            let bottom: i32 = if hi as i128 <= h - 1 {
                hi
            } else {
                (h - 1) as i32
            };
            (x1, top, x1, bottom)
        } else if 0 <= x1 && (x1 as i128) < w && 0 <= y1 && (y1 as i128) < h && 0 <= x2 && (x2 as i128)
            < w && 0 <= y2 && (y2 as i128) < h {
            (x1, y1, x2, y2)
        } else {
            let start = match Self::clip_line_from_outside(width, height, x1, y1, x2, y2) {
                Some(point) => point,
                None => return Vec::new(),
            };
            let end = Self::clip_line_from_inside(width, height, x1, y1, x2, y2);
            (start.0, start.1, end.0, end.1)
        };
        rasterize(a as usize, b as usize, c as usize, d as usize)
    }

    /// Draws the segment from `(x1, y1)` to `(x2, y2)` in the pen's colour onto
    /// a row-major RGB canvas of `width` by `height` pixels. Bytes of pixels
    /// off the segment are left as they were.
    pub fn line(&self, buffer: &mut Vec<u8>, width: usize, height: usize, x1: i32, y1: i32, x2: i32, y2: i32)
        requires
            old(buffer).len() == width * height * 3,
        ensures
            final(buffer).len() == old(buffer).len(),
            forall|i: int|
                0 <= i < old(buffer).len() ==> #[trigger] final(buffer)@[i] == if covers(
                    line_points(width as int, height as int, x1 as int, y1 as int, x2 as int, y2 as int),
                    line_points(
                        width as int,
                        height as int,
                        x1 as int,
                        y1 as int,
                        x2 as int,
                        y2 as int,
                    ).len() as int,
                    width as int,
                    i / 3,
                ) {
                    self.pen().channel(i % 3)
                } else {
                    old(buffer)@[i]
                },
    {
        let points = Self::line_foreach(width, height, x1, y1, x2, y2);
        let ghost pts = points_view(points@);
        let ghost original = buffer@;
        let mut k: usize = 0;
        while k < points.len()
            invariant
                k <= points.len(),
                pts == points_view(points@),
                buffer.len() == original.len(),
                original.len() == width * height * 3,
                forall|j: int|
                    #![trigger points@[j]]
                    0 <= j < points.len() ==> points@[j].0 < width && points@[j].1 < height,
                forall|i: int|
                    0 <= i < buffer.len() ==> #[trigger] buffer@[i] == if covers(
                        pts,
                        k as int,
                        width as int,
                        i / 3,
                    ) {
                        self.pen.channel(i % 3)
                    } else {
                        original[i]
                    },
            decreases points.len() - k,
        {
            let (x, y) = points[k];
            proof {
                lemma_pixel_in_buffer(x as int, y as int, width as int, height as int);
            }
            let index: usize = (y * width + x) * 3;
            let ghost before = buffer@;
            buffer.set(index, self.pen.red);
            buffer.set(index + 1, self.pen.green);
            buffer.set(index + 2, self.pen.blue);
            proof {
                let p = y * width + x;
                assert(pixel_index(pts[k as int], width as int) == p);
                assert forall|i: int| 0 <= i < buffer.len() implies #[trigger] buffer@[i] == if covers(
                    pts,
                    k + 1,
                    width as int,
                    i / 3,
                ) {
                    self.pen.channel(i % 3)
                } else {
                    original[i]
                } by {
                    if i / 3 == p {
                        assert(index <= i < index + 3);
                        assert(covers(pts, k + 1, width as int, i / 3));
                    } else {
                        assert(i < index || i >= index + 3);
                        assert(buffer@[i] == before[i]);
                        if covers(pts, k + 1, width as int, i / 3) {
                            let j = choose|j: int|
                                0 <= j < k + 1 && #[trigger] pixel_index(pts[j], width as int) == i / 3;
                            assert(j < k);
                            assert(covers(pts, k as int, width as int, i / 3));
                        }
                    }
                }
            }
            k = k + 1;
        }
    }
}

/// Swapping the ends of a segment whose ends both lie on the canvas leaves
/// the covered pixels, and even their order, unchanged.
pub proof fn lemma_line_reversal(width: int, height: int, x1: int, y1: int, x2: int, y2: int)
    requires
        in_canvas(width, height, x1, y1),
        in_canvas(width, height, x2, y2),
    ensures
        line_points(width, height, x1, y1, x2, y2) == line_points(width, height, x2, y2, x1, y1),
{
}

/// A segment whose ends both lie beyond the same side of the canvas covers
/// no pixel.
pub proof fn lemma_line_off_canvas(width: int, height: int, x1: int, y1: int, x2: int, y2: int)
    requires
        (x1 < 0 && x2 < 0) || (y1 < 0 && y2 < 0) || (x1 >= width && x2 >= width) || (y1 >= height
            && y2 >= height),
    ensures
        line_points(width, height, x1, y1, x2, y2) == Seq::<(int, int)>::empty(),
{
}

} // verus!
