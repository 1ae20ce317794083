//! The pixels of a straight line between two integer points.
//!
//! A line advances one pixel per step along its longer axis. On the other axis
//! it takes, at every step, the pixel nearest to the ideal segment; where the
//! segment passes exactly midway between two pixels it takes the one nearer to
//! the starting point.

use vstd::prelude::*;
use vstd::arithmetic::div_mod::{lemma_fundamental_div_mod, lemma_fundamental_div_mod_converse};

verus! {

/// Distance between two coordinates.
pub open spec fn span(from: int, to: int) -> int {
    if from <= to {
        to - from
    } else {
        from - to
    }
}

/// The coordinate `k` away from `from` in the direction of `to`: upwards unless `to` lies below `from`.
pub open spec fn toward(from: int, to: int, k: int) -> int {
    if to < from {
        from - k
    } else {
        from + k
    }
}

/// The integer nearest to `num / den`, for a positive `den`. A quotient exactly
/// midway between two integers goes to the lower one.
pub open spec fn nearest(num: int, den: int) -> int {
    (2 * num + den - 1) / (2 * den)
}

/// Number of steps from the first pixel of a line to its last.
pub open spec fn steps(dx: int, dy: int) -> int {
    if dx >= dy {
        dx
    } else {
        dy
    }
}

/// How far pixel `k` of a line that spans `dx` by `dy` lies from the first pixel, on each axis.
pub open spec fn line_offset(dx: int, dy: int, k: int) -> (int, int) {
    if dx == 0 && dy == 0 {
        (0, 0)
    } else if dx >= dy {
        (k, nearest(k * dy, dx))
    } else {
        (nearest(k * dx, dy), k)
    }
}

/// Pixel `k` of the line from `a` to `b`, counted from 0 at `a`.
pub open spec fn line_pixel(a: (int, int), b: (int, int), k: int) -> (int, int) {
    let off = line_offset(span(a.0, b.0), span(a.1, b.1), k);
    (toward(a.0, b.0, off.0), toward(a.1, b.1, off.1))
}

/// The pixels of the line from `a` to `b`, in the order in which they are drawn.
pub open spec fn line_pixels(a: (int, int), b: (int, int)) -> Seq<(int, int)> {
    Seq::new((steps(span(a.0, b.0), span(a.1, b.1)) + 1) as nat, |k: int| line_pixel(a, b, k))
}

/// The running error term of the incremental line algorithm when it stands on pixel `k`.
pub open spec fn line_error(dx: int, dy: int, k: int) -> int {
    let off = line_offset(dx, dy, k);
    (off.1 + 1) * dx - (off.0 + 1) * dy
}

/// `nearest(num, den)` is the one integer within half a unit of `num / den`,
/// the lower one where two are.
pub proof fn lemma_nearest_bounds(num: int, den: int)
    requires
        den > 0,
    ensures
        (2 * nearest(num, den) - 1) * den < 2 * num <= (2 * nearest(num, den) + 1) * den,
{
    let x = 2 * num + den - 1;
    let d = 2 * den;
    lemma_fundamental_div_mod(x, d);
    let q = x / d;
    let r = x % d;
    assert(0 <= r < d) by {
        vstd::arithmetic::div_mod::lemma_mod_bound(x, d);
    }
    assert(x == d * q + r);
    assert(d * q == 2 * (q * den)) by (nonlinear_arith)
        requires
            d == 2 * den,
    ;
    assert((2 * q - 1) * den == 2 * (q * den) - den) by (nonlinear_arith);
    assert((2 * q + 1) * den == 2 * (q * den) + den) by (nonlinear_arith);
}

/// An integer within half a unit of `num / den`, and not half a unit below it, is `nearest(num, den)`.
pub proof fn lemma_nearest_unique(num: int, den: int, m: int)
    requires
        den > 0,
        (2 * m - 1) * den < 2 * num <= (2 * m + 1) * den,
    ensures
        m == nearest(num, den),
{
    let x = 2 * num + den - 1;
    let d = 2 * den;
    assert((2 * m - 1) * den == m * d - den) by (nonlinear_arith)
        requires
            d == 2 * den,
    ;
    assert((2 * m + 1) * den == m * d + den) by (nonlinear_arith)
        requires
            d == 2 * den,
    ;
    let r = x - m * d;
    lemma_fundamental_div_mod_converse(x, d, m, r);
}

/// What one round of the incremental algorithm does when it stands on pixel
/// `k` of a line and holds the error term `err`: which axes it advances on,
/// that this leads to pixel `k + 1`, and what the error term becomes.
pub proof fn lemma_line_step(dx: int, dy: int, k: int, err: int)
    requires
        dx >= 0,
        dy >= 0,
        0 <= k < steps(dx, dy),
        err == line_error(dx, dy, k),
    ensures
        line_offset(dx, dy, k + 1).0 == line_offset(dx, dy, k).0 + (if 2 * err > -dy {
            1int
        } else {
            0int
        }),
        line_offset(dx, dy, k + 1).1 == line_offset(dx, dy, k).1 + (if 2 * err < dx {
            1int
        } else {
            0int
        }),
        line_error(dx, dy, k + 1) == err - (if 2 * err > -dy {
            dy
        } else {
            0int
        }) + (if 2 * err < dx {
            dx
        } else {
            0int
        }),
        -3 * dy <= 2 * err <= 3 * dx,
{
    if dx >= dy {
        let j = nearest(k * dy, dx);
        lemma_nearest_bounds(k * dy, dx);
        let xs = 2 * err > -dy;
        let ys = 2 * err < dx;
        let j2 = if ys {
            j + 1
        } else {
            j
        };
        assert(2 * err == (2 * j + 1) * dx - 2 * (k * dy) + dx - 2 * dy) by (nonlinear_arith)
            requires
                err == (j + 1) * dx - (k + 1) * dy,
        ;
        assert(-3 * dy <= 2 * err <= 3 * dx) by (nonlinear_arith)
            requires
                2 * err == (2 * j + 1) * dx - 2 * (k * dy) + dx - 2 * dy,
                (2 * j - 1) * dx < 2 * (k * dy) <= (2 * j + 1) * dx,
                dx >= dy >= 0,
        ;
        assert(xs) by (nonlinear_arith)
            requires
                2 * err == (2 * j + 1) * dx - 2 * (k * dy) + dx - 2 * dy,
                (2 * j - 1) * dx < 2 * (k * dy) <= (2 * j + 1) * dx,
                dx >= dy >= 0,
                dx > 0,
                xs == (2 * err > -dy),
        ;
        assert((2 * j2 - 1) * dx < 2 * ((k + 1) * dy) <= (2 * j2 + 1) * dx) by (nonlinear_arith)
            requires
                2 * err == (2 * j + 1) * dx - 2 * (k * dy) + dx - 2 * dy,
                (2 * j - 1) * dx < 2 * (k * dy) <= (2 * j + 1) * dx,
                dx >= dy >= 0,
                dx > 0,
                ys == (2 * err < dx),
                j2 == if ys {
                    j + 1
                } else {
                    j
                },
        ;
        lemma_nearest_unique((k + 1) * dy, dx, j2);
        assert((j2 + 1) * dx - (k + 2) * dy == err - dy + (if ys {
            dx
        } else {
            0int
        })) by (nonlinear_arith)
            requires
                err == (j + 1) * dx - (k + 1) * dy,
                j2 == if ys {
                    j + 1
                } else {
                    j
                },
        ;
    } else {
        let i = nearest(k * dx, dy);
        lemma_nearest_bounds(k * dx, dy);
        let xs = 2 * err > -dy;
        let ys = 2 * err < dx;
        let i2 = if xs {
            i + 1
        } else {
            i
        };
        assert(2 * err == 2 * (k * dx) - (2 * i + 1) * dy + 2 * dx - dy) by (nonlinear_arith)
            requires
                err == (k + 1) * dx - (i + 1) * dy,
        ;
        assert(-3 * dy <= 2 * err <= 3 * dx) by (nonlinear_arith)
            requires
                2 * err == 2 * (k * dx) - (2 * i + 1) * dy + 2 * dx - dy,
                (2 * i - 1) * dy < 2 * (k * dx) <= (2 * i + 1) * dy,
                dy > dx >= 0,
        ;
        assert(ys) by (nonlinear_arith)
            requires
                2 * err == 2 * (k * dx) - (2 * i + 1) * dy + 2 * dx - dy,
                (2 * i - 1) * dy < 2 * (k * dx) <= (2 * i + 1) * dy,
                dy > dx >= 0,
                ys == (2 * err < dx),
        ;
        assert((2 * i2 - 1) * dy < 2 * ((k + 1) * dx) <= (2 * i2 + 1) * dy) by (nonlinear_arith)
            requires
                2 * err == 2 * (k * dx) - (2 * i + 1) * dy + 2 * dx - dy,
                (2 * i - 1) * dy < 2 * (k * dx) <= (2 * i + 1) * dy,
                dy > dx >= 0,
                xs == (2 * err > -dy),
                i2 == if xs {
                    i + 1
                } else {
                    i
                },
        ;
        lemma_nearest_unique((k + 1) * dx, dy, i2);
        assert((k + 2) * dx - (i2 + 1) * dy == err + dx - (if xs {
            dy
        } else {
            0int
        })) by (nonlinear_arith)
            requires
                err == (k + 1) * dx - (i + 1) * dy,
                i2 == if xs {
                    i + 1
                } else {
                    i
                },
        ;
    }
}

/// Every pixel of a line lies within the spans of the line, the first on the
/// starting point and the last, and no other, on the end point.
pub proof fn lemma_line_offset_range(dx: int, dy: int, k: int)
    requires
        dx >= 0,
        dy >= 0,
        0 <= k <= steps(dx, dy),
    ensures
        0 <= line_offset(dx, dy, k).0 <= dx,
        0 <= line_offset(dx, dy, k).1 <= dy,
        k == 0 ==> line_offset(dx, dy, k) == (0int, 0int),
        line_offset(dx, dy, k) == (dx, dy) <==> k == steps(dx, dy),
{
    if dx == 0 && dy == 0 {
    } else if dx >= dy {
        let j = nearest(k * dy, dx);
        lemma_nearest_bounds(k * dy, dx);
        assert(0 <= j <= dy && (k == 0 ==> j == 0) && (k == dx ==> j == dy)) by (nonlinear_arith)
            requires
                (2 * j - 1) * dx < 2 * (k * dy) <= (2 * j + 1) * dx,
                0 <= k <= dx,
                dx >= dy >= 0,
                dx > 0,
        ;
    } else {
        let i = nearest(k * dx, dy);
        lemma_nearest_bounds(k * dx, dy);
        assert(0 <= i <= dx && (k == 0 ==> i == 0) && (k == dy ==> i == dx)) by (nonlinear_arith)
            requires
                (2 * i - 1) * dy < 2 * (k * dx) <= (2 * i + 1) * dy,
                0 <= k <= dy,
                dy > dx >= 0,
        ;
    }
}

/// On the first pixel the error term is the difference of the two spans.
pub proof fn lemma_line_error_start(dx: int, dy: int)
    requires
        dx >= 0,
        dy >= 0,
    ensures
        line_error(dx, dy, 0) == dx - dy,
{
    lemma_line_offset_range(dx, dy, 0);
    assert(line_offset(dx, dy, 0) == (0int, 0int));
    assert((0 + 1) * dx - (0 + 1) * dy == dx - dy) by (nonlinear_arith);
}

/// A vertical line drawn downwards covers exactly the pixels of its column
/// between its two end points.
pub proof fn lemma_vertical_line(x: int, top: int, bottom: int)
    requires
        top <= bottom,
    ensures
        line_pixels((x, top), (x, bottom)).to_set() == Set::new(
            |p: (int, int)| p.0 == x && top <= p.1 <= bottom,
        ),
{
    let a = (x, top);
    let b = (x, bottom);
    let pixels = line_pixels(a, b);
    let column = Set::new(|p: (int, int)| p.0 == x && top <= p.1 <= bottom);
    let dy = bottom - top;
    assert forall|k: int| 0 <= k <= dy implies #[trigger] line_pixel(a, b, k) == (x, top + k) by {
        if dy > 0 {
            assert(k * 0 == 0) by (nonlinear_arith);
            lemma_nearest_unique(0, dy, 0);
        }
    }
    assert forall|p: (int, int)| pixels.to_set().contains(p) <==> column.contains(p) by {
        if pixels.to_set().contains(p) {
            let k = choose|k: int| 0 <= k < pixels.len() && pixels[k] == p;
            assert(line_pixel(a, b, k) == (x, top + k));
        }
        if column.contains(p) {
            let k = p.1 - top;
            assert(line_pixel(a, b, k) == (x, top + k));
            assert(pixels[k] == p);
        }
    }
    assert(pixels.to_set() =~= column);
}

/// A horizontal line drawn to the right covers exactly the pixels of its row
/// between its two end points.
pub proof fn lemma_horizontal_line(y: int, left: int, right: int)
    requires
        left <= right,
    ensures
        line_pixels((left, y), (right, y)).to_set() == Set::new(
            |p: (int, int)| p.1 == y && left <= p.0 <= right,
        ),
{
    let a = (left, y);
    let b = (right, y);
    let pixels = line_pixels(a, b);
    let row = Set::new(|p: (int, int)| p.1 == y && left <= p.0 <= right);
    let dx = right - left;
    assert forall|k: int| 0 <= k <= dx implies #[trigger] line_pixel(a, b, k) == (left + k, y) by {
        if dx > 0 {
            assert(k * 0 == 0) by (nonlinear_arith);
            lemma_nearest_unique(0, dx, 0);
        }
    }
    assert forall|p: (int, int)| pixels.to_set().contains(p) <==> row.contains(p) by {
        if pixels.to_set().contains(p) {
            let k = choose|k: int| 0 <= k < pixels.len() && pixels[k] == p;
            assert(line_pixel(a, b, k) == (left + k, y));
        }
        if row.contains(p) {
            let k = p.0 - left;
            assert(line_pixel(a, b, k) == (left + k, y));
            assert(pixels[k] == p);
        }
    }
    assert(pixels.to_set() =~= row);
}

/// A line starts on its first end point and stops on its second.
pub proof fn lemma_line_endpoints(a: (int, int), b: (int, int))
    ensures
        line_pixels(a, b).len() >= 1,
        line_pixels(a, b).first() == a,
        line_pixels(a, b).last() == b,
        line_pixels(a, b).to_set().contains(a),
        line_pixels(a, b).to_set().contains(b),
{
    let dx = span(a.0, b.0);
    let dy = span(a.1, b.1);
    let pixels = line_pixels(a, b);
    lemma_line_offset_range(dx, dy, 0);
    lemma_line_offset_range(dx, dy, steps(dx, dy));
    assert(pixels[0] == a);
    assert(pixels[steps(dx, dy)] == b);
}

/// A line has no gaps: from each pixel to the next, either coordinate changes
/// by one at most, and the pixel is not the same.
pub proof fn lemma_line_connected(a: (int, int), b: (int, int), k: int)
    requires
        0 <= k < line_pixels(a, b).len() - 1,
    ensures
        span(line_pixels(a, b)[k].0, line_pixels(a, b)[k + 1].0) <= 1,
        span(line_pixels(a, b)[k].1, line_pixels(a, b)[k + 1].1) <= 1,
        line_pixels(a, b)[k] != line_pixels(a, b)[k + 1],
{
    let dx = span(a.0, b.0);
    let dy = span(a.1, b.1);
    lemma_line_step(dx, dy, k, line_error(dx, dy, k));
}

} // verus!
