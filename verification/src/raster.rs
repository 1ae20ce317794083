//! The frame buffer and what it means to paint pixels into it.
//!
//! A frame holds four bytes for each pixel, row after row from the top left.
//! Painting is described pixel by pixel: a painted pixel inside the frame
//! takes the colour, every other byte of the frame stays as it was, and a
//! painted pixel outside the frame is skipped.

use vstd::prelude::*;
use crate::geometry::{Color, Line, Vector, HEIGHT, WIDTH};
use crate::line::{
    lemma_horizontal_line, lemma_line_endpoints, lemma_line_error_start, lemma_line_offset_range,
    lemma_line_step, lemma_vertical_line, line_error, line_pixel, line_pixels, span, steps, toward,
};
use crate::scene::Scene;

verus! {

/// Distance between two neighbouring grid lines, in pixels.
pub const CELL: u32 = 16;

/// Number of bytes in a frame: four for each pixel.
pub open spec fn frame_len() -> nat {
    4 * WIDTH as nat * HEIGHT as nat
}

/// Whether the pixel `p` lies inside the frame.
pub open spec fn visible(p: (int, int)) -> bool {
    0 <= p.0 < WIDTH && 0 <= p.1 < HEIGHT
}

/// Index of the first of the four bytes of the pixel `p`.
pub open spec fn offset(p: (int, int)) -> int {
    4 * (p.1 * WIDTH + p.0)
}

/// The pixel to which byte `b` of a frame belongs.
pub open spec fn pixel_at(b: int) -> (int, int) {
    ((b / 4) % (WIDTH as int), (b / 4) / (WIDTH as int))
}

/// The frame after every pixel of `pixels` that lies inside it has been given
/// `color`. Pixels outside the frame are skipped: they change nothing.
pub open spec fn paint(frame: Seq<u8>, pixels: Set<(int, int)>, color: Color) -> Seq<u8> {
    Seq::new(
        frame.len(),
        |b: int|
            if pixels.contains(pixel_at(b)) {
                color.channel(b % 4)
            } else {
                frame[b]
            },
    )
}

/// A frame in which every pixel has the colour `color`.
pub open spec fn blank(color: Color) -> Seq<u8> {
    Seq::new(frame_len(), |b: int| color.channel(b % 4))
}

/// Colour of the frame between the grid lines.
pub open spec fn background() -> Color {
    Color { red: 71, green: 110, blue: 252, alpha: 255 }
}

/// Colour of the grid lines.
pub open spec fn grid_color() -> Color {
    Color { red: 100, green: 132, blue: 250, alpha: 255 }
}

/// Whether the pixel `p` lies on a grid line.
pub open spec fn on_grid(p: (int, int)) -> bool {
    p.0 % (CELL as int) == 0 || p.1 % (CELL as int) == 0
}

/// The frame of a scene without points: the background with the grid lines over it.
pub open spec fn grid_frame() -> Seq<u8> {
    paint(blank(background()), Set::new(|p: (int, int)| on_grid(p)), grid_color())
}

/// The pixels that a pass over the frame, row by row, has behind it when it
/// stands at column `x` of row `y`.
spec fn scanned(x: int, y: int) -> Set<(int, int)> {
    Set::new(|p: (int, int)| visible(p) && (p.1 < y || (p.1 == y && p.0 < x)))
}

/// The pixels of the grid lines down the columns left of `x` and across the
/// rows above `y`, each line as long as it is drawn.
spec fn ruled(x: int, y: int) -> Set<(int, int)> {
    Set::new(
        |p: (int, int)|
            (p.0 % (CELL as int) == 0 && 0 <= p.0 < x && 0 <= p.1 <= HEIGHT - 1) || (p.1 % (
            CELL as int) == 0 && 0 <= p.1 < y && 0 <= p.0 <= WIDTH),
    )
}

/// Painting nothing leaves the frame as it is.
pub proof fn lemma_paint_nothing(frame: Seq<u8>, color: Color)
    ensures
        paint(frame, Set::empty(), color) == frame,
{
    assert(paint(frame, Set::empty(), color) =~= frame);
}

/// Painting two sets of pixels in one colour, one after the other, paints their union.
pub proof fn lemma_paint_twice(
    frame: Seq<u8>,
    first: Set<(int, int)>,
    second: Set<(int, int)>,
    color: Color,
)
    ensures
        paint(paint(frame, first, color), second, color) == paint(
            frame,
            first.union(second),
            color,
        ),
{
    assert(paint(paint(frame, first, color), second, color) =~= paint(
        frame,
        first.union(second),
        color,
    ));
}

/// Byte `c` of a pixel inside the frame holds the colour's channel `c` if the
/// pixel was painted, and what it held before if it was not.
pub proof fn lemma_paint_pixel(
    frame: Seq<u8>,
    pixels: Set<(int, int)>,
    color: Color,
    p: (int, int),
    c: int,
)
    requires
        frame.len() == frame_len(),
        visible(p),
        0 <= c < 4,
    ensures
        0 <= offset(p) + c < frame_len(),
        paint(frame, pixels, color)[offset(p) + c] == if pixels.contains(p) {
            color.channel(c)
        } else {
            frame[offset(p) + c]
        },
{
    assert(pixel_at(offset(p) + c) == p);
}

/// Drawing a line gives its colour to each of its two end points that lies
/// inside the frame.
pub proof fn lemma_line_paints_endpoints(
    frame: Seq<u8>,
    a: (int, int),
    b: (int, int),
    color: Color,
    c: int,
)
    requires
        frame.len() == frame_len(),
        0 <= c < 4,
    ensures
        visible(a) ==> paint(frame, line_pixels(a, b).to_set(), color)[offset(a) + c]
            == color.channel(c),
        visible(b) ==> paint(frame, line_pixels(a, b).to_set(), color)[offset(b) + c]
            == color.channel(c),
{
    lemma_line_endpoints(a, b);
    if visible(a) {
        lemma_paint_pixel(frame, line_pixels(a, b).to_set(), color, a, c);
    }
    if visible(b) {
        lemma_paint_pixel(frame, line_pixels(a, b).to_set(), color, b, c);
    }
}

impl Scene {
    /// Writes `color` into the pixel at `position`, or nothing if it lies outside the frame.
    pub fn draw_cell(&self, screen: &mut [u8], position: &Vector, color: &Color)
        requires
            old(screen)@.len() == frame_len(),
        ensures
            final(screen)@ == paint(old(screen)@, set![position@], *color),
    {
        if position.x < 0 || position.x >= WIDTH as i32 || position.y < 0 || position.y
            >= HEIGHT as i32 {
            assert(screen@ =~= paint(old(screen)@, set![position@], *color));
            return ;
        }
        let index: usize = 4 * (position.y as usize * WIDTH as usize + position.x as usize);
        screen[index] = color.red;
        screen[index + 1] = color.green;
        screen[index + 2] = color.blue;
        screen[index + 3] = color.alpha;
        assert(screen@ =~= paint(old(screen)@, set![position@], *color));
    }

    /// Draws the line from `line.start` to `line.end`, both included, in `color`.
    /// Pixels of the line that lie outside the frame are skipped.
    pub fn draw_line(&self, screen: &mut [u8], line: &Line, color: Color)
        requires
            old(screen)@.len() == frame_len(),
        ensures
            final(screen)@ == paint(
                old(screen)@,
                line_pixels(line.start@, line.end@).to_set(),
                color,
            ),
    {
        let ghost a = line.start@;
        let ghost b = line.end@;
        let ghost pixels = line_pixels(a, b);
        let dx: i64 = if line.start.x <= line.end.x {
            line.end.x as i64 - line.start.x as i64
        } else {
            line.start.x as i64 - line.end.x as i64
        };
        let dy: i64 = if line.start.y <= line.end.y {
            line.end.y as i64 - line.start.y as i64
        } else {
            line.start.y as i64 - line.end.y as i64
        };
        let step_x: i32 = if line.end.x < line.start.x {
            -1
        } else {
            1
        };
        let step_y: i32 = if line.end.y < line.start.y {
            -1
        } else {
            1
        };
        let mut x: i32 = line.start.x;
        let mut y: i32 = line.start.y;
        let mut err: i64 = dx - dy;
        let ghost mut k: int = 0;
        proof {
            lemma_line_offset_range(dx as int, dy as int, 0);
            lemma_line_error_start(dx as int, dy as int);
            lemma_paint_nothing(screen@, color);
            assert(pixels.take(0).to_set() =~= Set::empty());
        }
        loop
            invariant_except_break
                screen@ == paint(old(screen)@, pixels.take(k).to_set(), color),
            invariant
                screen@.len() == frame_len(),
                a == line.start@,
                b == line.end@,
                pixels == line_pixels(a, b),
                dx == span(a.0, b.0),
                dy == span(a.1, b.1),
                step_x == toward(0, b.0 - a.0, 1),
                step_y == toward(0, b.1 - a.1, 1),
                0 <= k <= steps(dx as int, dy as int),
                (x as int, y as int) == line_pixel(a, b, k),
                err == line_error(dx as int, dy as int, k),
            ensures
                screen@ == paint(old(screen)@, pixels.to_set(), color),
            decreases steps(dx as int, dy as int) - k,
        {
            self.draw_cell(screen, &Vector::new(x, y), &color);
            proof {
                lemma_paint_twice(old(screen)@, pixels.take(k).to_set(), set![pixels[k]], color);
                assert(pixels.take(k + 1) =~= pixels.take(k).push(pixels[k]));
                pixels.take(k).lemma_push_to_set_commute(pixels[k]);
                assert(pixels.take(k).to_set().union(set![pixels[k]]) =~= pixels.take(
                    k + 1,
                ).to_set());
                lemma_line_offset_range(dx as int, dy as int, k);
            }
            if x == line.end.x && y == line.end.y {
                proof {
                    assert(pixels.take(k + 1) =~= pixels);
                }
                break ;
            }
            proof {
                lemma_line_step(dx as int, dy as int, k, err as int);
                lemma_line_offset_range(dx as int, dy as int, k + 1);
            }
            let e2: i64 = 2 * err;
            if e2 > -dy {
                err -= dy;
                x += step_x;
            }
            if e2 < dx {
                err += dx;
                y += step_y;
            }
            proof {
                k = k + 1;
            }
        }
    }

    /// Fills the frame with the background colour and rules the grid over it:
    /// a line down every sixteenth column and across every sixteenth row.
    pub fn draw_grid(&self, screen: &mut [u8])
        requires
            old(screen)@.len() == frame_len(),
        ensures
            final(screen)@ == grid_frame(),
    {
        proof {
            lemma_paint_nothing(screen@, background());
            assert(scanned(0, 0) =~= Set::empty());
        }
        for y in 0..HEIGHT
            invariant
                screen@.len() == frame_len(),
                screen@ == paint(old(screen)@, scanned(0, y as int), background()),
        {
            for x in 0..WIDTH
                invariant
                    y < HEIGHT,
                    screen@.len() == frame_len(),
                    screen@ == paint(old(screen)@, scanned(x as int, y as int), background()),
            {
                self.draw_cell(
                    screen,
                    &Vector::new(x as i32, y as i32),
                    &Color::new(71, 110, 252, 255),
                );
                proof {
                    let p = (x as int, y as int);
                    lemma_paint_twice(
                        old(screen)@,
                        scanned(x as int, y as int),
                        set![p],
                        background(),
                    );
                    assert(scanned(x as int, y as int).union(set![p]) =~= scanned(
                        x + 1,
                        y as int,
                    ));
                }
            }
            proof {
                assert(scanned(WIDTH as int, y as int) =~= scanned(0, y + 1));
            }
        }
        proof {
            assert(screen@ =~= blank(background()));
            lemma_paint_nothing(screen@, grid_color());
            assert(ruled(0, 0) =~= Set::empty());
        }
        for column in 0..WIDTH / CELL
            invariant
                screen@.len() == frame_len(),
                screen@ == paint(blank(background()), ruled(column * CELL, 0), grid_color()),
        {
            let x: i32 = (column * CELL) as i32;
            let line = Line::new(Vector::new(x, 0), Vector::new(x, HEIGHT as i32 - 1));
            self.draw_line(screen, &line, Color::new(100, 132, 250, 255));
            proof {
                lemma_vertical_line(x as int, 0, HEIGHT - 1);
                lemma_paint_twice(
                    blank(background()),
                    ruled(x as int, 0),
                    line_pixels(line.start@, line.end@).to_set(),
                    grid_color(),
                );
                assert(ruled(x as int, 0).union(line_pixels(line.start@, line.end@).to_set())
                    =~= ruled(x + CELL, 0));
            }
        }
        for row in 0..HEIGHT / CELL + 1
            invariant
                screen@.len() == frame_len(),
                screen@ == paint(
                    blank(background()),
                    ruled(WIDTH as int, row * CELL),
                    grid_color(),
                ),
        {
            let y: i32 = (row * CELL) as i32;
            let line = Line::new(Vector::new(0, y), Vector::new(WIDTH as i32, y));
            self.draw_line(screen, &line, Color::new(100, 132, 250, 255));
            proof {
                lemma_horizontal_line(y as int, 0, WIDTH as int);
                lemma_paint_twice(
                    blank(background()),
                    ruled(WIDTH as int, y as int),
                    line_pixels(line.start@, line.end@).to_set(),
                    grid_color(),
                );
                assert(ruled(WIDTH as int, y as int).union(
                    line_pixels(line.start@, line.end@).to_set(),
                ) =~= ruled(WIDTH as int, y + CELL));
            }
        }
        proof {
            assert(screen@ =~= grid_frame());
        }
    }
}

} // verus!
