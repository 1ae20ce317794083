//! The scene: an ordered list of control points and how it is rendered.

use vstd::prelude::*;
use crate::geometry::{Color, Line, Vector};
use crate::line::line_pixels;
use crate::raster::{frame_len, grid_frame, lemma_paint_nothing, lemma_paint_twice, paint};

verus! {

/// Number of points at which the curve is sampled for drawing.
pub const CURVE_SAMPLES: usize = 101;

/// Colour of the curve.
pub open spec fn curve_color() -> Color {
    Color { red: 255, green: 255, blue: 255, alpha: 255 }
}

/// Colour of the segments that join the control points.
pub open spec fn control_color() -> Color {
    Color { red: 255, green: 255, blue: 255, alpha: 100 }
}

/// The positions of a sequence of points.
pub open spec fn positions(points: Seq<Vector>) -> Seq<(int, int)> {
    points.map_values(|p: Vector| p@)
}

/// The pixels of the segment that ends at point `i` of `points` and starts at the point before it.
pub open spec fn segment(points: Seq<(int, int)>, i: int) -> Set<(int, int)> {
    line_pixels(points[i - 1], points[i]).to_set()
}

/// The pixels of the segments that join each point of `points` to the next.
/// Fewer than two points have none.
pub open spec fn polyline(points: Seq<(int, int)>) -> Set<(int, int)> {
    Set::new(
        |p: (int, int)|
            exists|i: int| 1 <= i < points.len() && #[trigger] segment(points, i).contains(p),
    )
}

/// What a scene shows, by the number of its control points.
#[derive(Clone, Copy, Debug, PartialEq, Eq, Structural)]
pub enum SceneState {
    /// No control point: only the grid.
    Empty,
    /// One or two control points: the grid and the segment between the points.
    Partial,
    /// Three or more control points: the grid, the curve and the control polygon.
    Interpolatable,
}

/// The control points of the curve, in the order in which they were placed.
pub struct Scene {
    pub points: Vec<Vector>,
}

impl View for Scene {
    type V = Seq<(int, int)>;

    open spec fn view(&self) -> Seq<(int, int)> {
        positions(self.points@)
    }
}

/// A polyline grows by one segment with each point that is added.
proof fn lemma_polyline_grows(points: Seq<(int, int)>, m: int)
    requires
        1 <= m < points.len(),
    ensures
        polyline(points.take(m + 1)) == polyline(points.take(m)).union(segment(points, m)),
{
    let longer = points.take(m + 1);
    let shorter = points.take(m);
    assert forall|p: (int, int)|
        polyline(longer).contains(p) <==> polyline(shorter).union(segment(points, m)).contains(
            p,
        ) by {
        if polyline(longer).contains(p) {
            let i = choose|i: int| 1 <= i < longer.len() && #[trigger] segment(longer, i).contains(p);
            if i < m {
                assert(segment(shorter, i) == segment(longer, i));
            } else {
                assert(segment(points, m) == segment(longer, i));
            }
        }
        if polyline(shorter).contains(p) {
            let i = choose|i: int| 1 <= i < shorter.len() && #[trigger] segment(shorter, i).contains(p);
            assert(segment(longer, i) == segment(shorter, i));
        }
        if segment(points, m).contains(p) {
            assert(segment(longer, m) == segment(points, m));
        }
    }
    assert(polyline(longer) =~= polyline(shorter).union(segment(points, m)));
}

impl Scene {
    /// A scene without control points.
    pub fn new() -> (scene: Self)
        ensures
            scene@ == Seq::<(int, int)>::empty(),
    {
        let scene = Scene { points: Vec::new() };
        assert(scene@ =~= Seq::<(int, int)>::empty());
        scene
    }

    /// Adds a control point behind the ones that are there.
    pub fn append_point(&mut self, x: i32, y: i32)
        ensures
            final(self)@ == old(self)@.push((x as int, y as int)),
    {
        self.points.push(Vector::new(x, y));
        assert(self@ =~= old(self)@.push((x as int, y as int)));
    }

    /// Removes every control point.
    pub fn clear_points(&mut self)
        ensures
            final(self)@ == Seq::<(int, int)>::empty(),
    {
        self.points = Vec::new();
        assert(self@ =~= Seq::<(int, int)>::empty());
    }

    /// What the scene shows, by the number of its control points.
    pub open spec fn spec_state(&self) -> SceneState {
        if self@.len() == 0 {
            SceneState::Empty
        } else if self@.len() <= 2 {
            SceneState::Partial
        } else {
            SceneState::Interpolatable
        }
    }

    /// What the scene shows: nothing but the grid, the control points alone, or the curve as well.
    #[verifier::when_used_as_spec(spec_state)]
    pub fn state(&self) -> (state: SceneState)
        ensures
            state == self.spec_state(),
    {
        let count: usize = self.points.len();
        if count == 0 {
            SceneState::Empty
        } else if count <= 2 {
            SceneState::Partial
        } else {
            SceneState::Interpolatable
        }
    }

    /// Number of samples of the curve that a rendering of this scene draws:
    /// `CURVE_SAMPLES` once there are enough control points for a curve, none before.
    pub fn sample_count(&self) -> (count: usize)
        ensures
            count == if self.state() == SceneState::Interpolatable {
                CURVE_SAMPLES
            } else {
                0
            },
    {
        match self.state() {
            SceneState::Interpolatable => CURVE_SAMPLES,
            _ => 0,
        }
    }

    /// The frame that shows this scene with `curve` as the samples of its curve:
    /// the grid, over it the curve if the scene has one, and over both the
    /// segments that join the control points.
    pub open spec fn rendering(&self, curve: Seq<(int, int)>) -> Seq<u8> {
        let below = if self.state() == SceneState::Interpolatable {
            paint(grid_frame(), polyline(curve), curve_color())
        } else {
            grid_frame()
        };
        paint(below, polyline(self@), control_color())
    }

    /// Joins each point of `points` to the next by a line in `color`.
    fn draw_polyline(&self, screen: &mut [u8], points: &[Vector], color: Color)
        requires
            old(screen)@.len() == frame_len(),
        ensures
            final(screen)@ == paint(old(screen)@, polyline(positions(points@)), color),
    {
        let ghost path = positions(points@);
        if points.len() == 0 {
            proof {
                assert(polyline(path) =~= Set::empty());
                lemma_paint_nothing(screen@, color);
            }
            return ;
        }
        proof {
            assert(polyline(path.take(1)) =~= Set::empty());
            lemma_paint_nothing(screen@, color);
        }
        for i in 1..points.len()
            invariant
                screen@.len() == frame_len(),
                path == positions(points@),
                screen@ == paint(old(screen)@, polyline(path.take(i as int)), color),
        {
            let line = Line::new(points[i - 1], points[i]);
            self.draw_line(screen, &line, color);
            proof {
                lemma_paint_twice(
                    old(screen)@,
                    polyline(path.take(i as int)),
                    segment(path, i as int),
                    color,
                );
                lemma_polyline_grows(path, i as int);
            }
        }
        proof {
            assert(path.take(path.len() as int) =~= path);
        }
    }

    /// Renders the scene into `screen`. `curve` holds the samples of the curve
    /// in the order of its parameter; it is drawn only if the scene has three
    /// control points or more.
    pub fn print(&self, screen: &mut [u8], curve: &[Vector])
        requires
            old(screen)@.len() == frame_len(),
        ensures
            final(screen)@ == self.rendering(positions(curve@)),
    {
        self.draw_grid(screen);
        match self.state() {
            SceneState::Empty => {
                proof {
                    assert(polyline(self@) =~= Set::empty());
                    lemma_paint_nothing(screen@, control_color());
                }
            },
            SceneState::Partial => {
                self.draw_polyline(screen, self.points.as_slice(), Color::new(255, 255, 255, 100));
            },
            SceneState::Interpolatable => {
                self.draw_polyline(screen, curve, Color::new(255, 255, 255, 255));
                self.draw_polyline(screen, self.points.as_slice(), Color::new(255, 255, 255, 100));
            },
        }
    }
}

/// A scene without control points shows the grid and nothing else, whatever
/// samples of a curve it is handed.
pub proof fn lemma_empty_scene_shows_grid(scene: Scene, curve: Seq<(int, int)>)
    requires
        scene@.len() == 0,
    ensures
        scene.rendering(curve) == grid_frame(),
{
    assert(polyline(scene@) =~= Set::empty());
    lemma_paint_nothing(grid_frame(), control_color());
}

/// A scene with fewer than three control points draws no curve: what it shows
/// does not depend on the samples it is handed.
pub proof fn lemma_no_curve_below_three_points(
    scene: Scene,
    curve: Seq<(int, int)>,
    other: Seq<(int, int)>,
)
    requires
        scene@.len() < 3,
    ensures
        scene.rendering(curve) == scene.rendering(other),
{
}

} // verus!
