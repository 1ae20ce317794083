//! When a line covers the same pixels in both directions.
//!
//! A line drawn backwards takes the same pixels as the line drawn forwards
//! except where the ideal segment passes exactly midway between two pixels:
//! there each direction takes the pixel nearer to its own starting point.

use vstd::prelude::*;
use vstd::arithmetic::div_mod::{lemma_fundamental_div_mod, lemma_fundamental_div_mod_converse};
use crate::line::{
    lemma_line_offset_range, lemma_nearest_bounds, lemma_nearest_unique, line_offset, line_pixel,
    line_pixels, nearest, span, steps,
};

verus! {

/// The shorter of the two spans of a line.
pub open spec fn short_span(dx: int, dy: int) -> int {
    if dx >= dy {
        dy
    } else {
        dx
    }
}

/// Whether the ideal segment of a line with the spans `long` and `short` passes
/// exactly midway between two pixels after `k` steps along the longer axis.
pub open spec fn midway(long: int, short: int, k: int) -> bool {
    long > 0 && (2 * (k * short)) % (2 * long) == long
}

/// Whether the ideal segment from `a` to `b` passes exactly midway between two
/// pixels somewhere on its way.
pub open spec fn passes_midway(a: (int, int), b: (int, int)) -> bool {
    let dx = span(a.0, b.0);
    let dy = span(a.1, b.1);
    exists|k: int| 0 <= k <= steps(dx, dy) && #[trigger] midway(steps(dx, dy), short_span(dx, dy), k)
}

/// Seen from the far end, the nearest pixel is the same one, except midway
/// between two pixels, where it is the next one.
proof fn lemma_nearest_reversed(long: int, short: int, k: int)
    requires
        long > 0,
        0 <= short <= long,
        0 <= k <= long,
    ensures
        nearest((long - k) * short, long) == short - nearest(k * short, long) - (if midway(
            long,
            short,
            k,
        ) {
            1int
        } else {
            0int
        }),
{
    let j = nearest(k * short, long);
    let t = 2 * (k * short);
    lemma_nearest_bounds(k * short, long);
    let tie = t == (2 * j + 1) * long;
    assert((2 * j + 1) * long == j * (2 * long) + long) by (nonlinear_arith);
    if tie {
        lemma_fundamental_div_mod_converse(t, 2 * long, j, long);
    } else if midway(long, short, k) {
        let q = t / (2 * long);
        lemma_fundamental_div_mod(t, 2 * long);
        assert(t == (2 * j + 1) * long) by (nonlinear_arith)
            requires
                t == (2 * long) * q + long,
                (2 * j - 1) * long < t <= (2 * j + 1) * long,
                long > 0,
        ;
    }
    let m = short - j - (if tie {
        1int
    } else {
        0int
    });
    assert((2 * m - 1) * long < 2 * ((long - k) * short) <= (2 * m + 1) * long) by (nonlinear_arith)
        requires
            (2 * j - 1) * long < t <= (2 * j + 1) * long,
            t == 2 * (k * short),
            tie == (t == (2 * j + 1) * long),
            m == short - j - (if tie {
                1int
            } else {
                0int
            }),
            long > 0,
    ;
    lemma_nearest_unique((long - k) * short, long, m);
}

/// Pixel `k` of a line, seen from the far end: the pixel as far from that end
/// as the line drawn backwards is after its remaining steps, except midway
/// between two pixels, where the two differ by one on the shorter axis.
proof fn lemma_offset_reversed(dx: int, dy: int, k: int)
    requires
        dx >= 0,
        dy >= 0,
        0 <= k <= steps(dx, dy),
    ensures
        ({
            let off = line_offset(dx, dy, k);
            let rev = line_offset(dx, dy, steps(dx, dy) - k);
            let slip = if midway(steps(dx, dy), short_span(dx, dy), k) {
                1int
            } else {
                0int
            };
            if dx >= dy {
                rev == (dx - off.0, dy - off.1 - slip)
            } else {
                rev == (dx - off.0 - slip, dy - off.1)
            }
        }),
{
    if dx == 0 && dy == 0 {
    } else if dx >= dy {
        lemma_nearest_reversed(dx, dy, k);
    } else {
        lemma_nearest_reversed(dy, dx, k);
    }
}

/// Where the ideal segment is not midway between two pixels at step `k`, the
/// line drawn backwards passes through pixel `k` of the line drawn forwards.
proof fn lemma_pixel_reversed(a: (int, int), b: (int, int), k: int)
    requires
        0 <= k <= steps(span(a.0, b.0), span(a.1, b.1)),
        !midway(steps(span(a.0, b.0), span(a.1, b.1)), short_span(span(a.0, b.0), span(a.1, b.1)), k),
    ensures
        line_pixel(b, a, steps(span(a.0, b.0), span(a.1, b.1)) - k) == line_pixel(a, b, k),
{
    let dx = span(a.0, b.0);
    let dy = span(a.1, b.1);
    lemma_offset_reversed(dx, dy, k);
    lemma_line_offset_range(dx, dy, k);
}

/// A line covers the same pixels in both directions, unless the ideal segment
/// passes exactly midway between two pixels.
pub proof fn lemma_line_symmetric(a: (int, int), b: (int, int))
    requires
        !passes_midway(a, b),
    ensures
        line_pixels(a, b).to_set() == line_pixels(b, a).to_set(),
{
    let dx = span(a.0, b.0);
    let dy = span(a.1, b.1);
    let n = steps(dx, dy);
    let forth = line_pixels(a, b);
    let back = line_pixels(b, a);
    assert forall|p: (int, int)| forth.to_set().contains(p) <==> back.to_set().contains(p) by {
        if forth.to_set().contains(p) {
            let k = choose|k: int| 0 <= k < forth.len() && forth[k] == p;
            assert(!midway(n, short_span(dx, dy), k));
            lemma_pixel_reversed(a, b, k);
            assert(back[n - k] == p);
        }
        if back.to_set().contains(p) {
            let k = choose|k: int| 0 <= k < back.len() && back[k] == p;
            assert(!midway(n, short_span(dx, dy), n - k));
            lemma_pixel_reversed(a, b, n - k);
            assert(forth[n - k] == p);
        }
    }
    assert(forth.to_set() =~= back.to_set());
}

/// Where the ideal segment passes exactly midway between two pixels, the line
/// drawn backwards covers a pixel that the line drawn forwards leaves out.
pub proof fn lemma_line_asymmetric(a: (int, int), b: (int, int))
    requires
        passes_midway(a, b),
    ensures
        line_pixels(a, b).to_set() != line_pixels(b, a).to_set(),
{
    let dx = span(a.0, b.0);
    let dy = span(a.1, b.1);
    let n = steps(dx, dy);
    let forth = line_pixels(a, b);
    let back = line_pixels(b, a);
    let k = choose|k: int| 0 <= k <= n && #[trigger] midway(n, short_span(dx, dy), k);
    let r = back[n - k];
    lemma_offset_reversed(dx, dy, k);
    lemma_line_offset_range(dx, dy, k);
    lemma_line_offset_range(dx, dy, n - k);
    assert(back.to_set().contains(r));
    if forth.to_set().contains(r) {
        let m = choose|m: int| 0 <= m < forth.len() && forth[m] == r;
        lemma_line_offset_range(dx, dy, m);
        assert(m == k);
        assert(false);
    }
}

/// A line along an axis or along a diagonal never passes midway between two
/// pixels, so it covers the same pixels in both directions.
pub proof fn lemma_straight_line_symmetric(a: (int, int), b: (int, int))
    requires
        span(a.0, b.0) == 0 || span(a.1, b.1) == 0 || span(a.0, b.0) == span(a.1, b.1),
    ensures
        !passes_midway(a, b),
        line_pixels(a, b).to_set() == line_pixels(b, a).to_set(),
{
    let dx = span(a.0, b.0);
    let dy = span(a.1, b.1);
    let long = steps(dx, dy);
    let short = short_span(dx, dy);
    assert forall|k: int| 0 <= k <= long implies !#[trigger] midway(long, short, k) by {
        if long > 0 {
            if short == 0 {
                assert(2 * (k * short) == 0) by (nonlinear_arith)
                    requires
                        short == 0,
                ;
            } else {
                assert(2 * (k * short) == k * (2 * long) + 0) by (nonlinear_arith)
                    requires
                        short == long,
                ;
                lemma_fundamental_div_mod_converse(2 * (k * short), 2 * long, k, 0);
            }
        }
    }
    lemma_line_symmetric(a, b);
}

} // verus!
