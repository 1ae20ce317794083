use bezier_curve::{binomial_coefficient, Scene, SceneState, Vector, CURVE_SAMPLES, HEIGHT, WIDTH};

const BACKGROUND: [u8; 4] = [71, 110, 252, 255];
const GRID: [u8; 4] = [100, 132, 250, 255];
const CURVE: [u8; 4] = [255, 255, 255, 255];
const CONTROL: [u8; 4] = [255, 255, 255, 100];

fn new_frame(fill: u8) -> Vec<u8> {
    vec![fill; 4 * WIDTH as usize * HEIGHT as usize]
}

fn pixel(frame: &[u8], x: usize, y: usize) -> [u8; 4] {
    let at: usize = 4 * (y * WIDTH as usize + x);
    [frame[at], frame[at + 1], frame[at + 2], frame[at + 3]]
}

fn grid_pixel(x: usize, y: usize) -> [u8; 4] {
    if x % 16 == 0 || y % 16 == 0 {
        GRID
    } else {
        BACKGROUND
    }
}

/// The point of the curve over `points` at the parameter `t`, by the Bernstein sum.
fn evaluate(points: &[(i32, i32)], t: f32) -> (i32, i32) {
    let n: usize = points.len() - 1;
    let mut x: f32 = 0.0;
    let mut y: f32 = 0.0;
    for (i, point) in points.iter().enumerate() {
        let weight: f32 =
            binomial_coefficient(n, i) as f32 * t.powi(i as i32) * (1.0 - t).powi((n - i) as i32);
        x += point.0 as f32 * weight;
        y += point.1 as f32 * weight;
    }
    (x as i32, y as i32)
}

fn samples(points: &[(i32, i32)], count: usize) -> Vec<Vector> {
    (0..count)
        .map(|i| {
            let at = evaluate(points, i as f32 / 100.0);
            Vector::new(at.0, at.1)
        })
        .collect()
}

fn scene_of(points: &[(i32, i32)]) -> Scene {
    let mut scene = Scene::new();
    for point in points {
        scene.append_point(point.0, point.1);
    }
    scene
}

#[test]
fn new_scene_is_empty() {
    let scene = Scene::new();
    assert!(scene.points.is_empty());
    assert_eq!(scene.state(), SceneState::Empty);
    assert_eq!(scene.sample_count(), 0);
}

#[test]
fn scene_passes_through_its_states_as_points_are_added() {
    let mut scene = Scene::new();
    scene.append_point(1, 2);
    assert_eq!(scene.state(), SceneState::Partial);
    assert_eq!(scene.sample_count(), 0);
    scene.append_point(3, 4);
    assert_eq!(scene.state(), SceneState::Partial);
    assert_eq!(scene.sample_count(), 0);
    scene.append_point(5, 6);
    assert_eq!(scene.state(), SceneState::Interpolatable);
    assert_eq!(scene.sample_count(), 101);
    assert_eq!(CURVE_SAMPLES, 101);
    scene.append_point(7, 8);
    assert_eq!(scene.state(), SceneState::Interpolatable);
    scene.clear_points();
    assert_eq!(scene.state(), SceneState::Empty);
    assert_eq!(scene.sample_count(), 0);
}

#[test]
fn append_point_keeps_the_order_of_the_points() {
    let scene = scene_of(&[(5, 6), (-1, 900), (5, 6)]);
    let held: Vec<(i32, i32)> = scene.points.iter().map(|p| (p.x, p.y)).collect();
    assert_eq!(held, vec![(5, 6), (-1, 900), (5, 6)]);
}

#[test]
fn clear_points_removes_every_point() {
    let mut scene = scene_of(&[(5, 6), (7, 8), (9, 10), (11, 12)]);
    scene.clear_points();
    assert!(scene.points.is_empty());
    scene.clear_points();
    assert!(scene.points.is_empty());
}

#[test]
fn empty_scene_renders_the_grid() {
    let scene = Scene::new();
    let mut frame = new_frame(0);
    scene.print(&mut frame, &[]);
    let mut y: usize = 0;
    while y < HEIGHT as usize {
        let mut x: usize = 0;
        while x < WIDTH as usize {
            assert_eq!(pixel(&frame, x, y), grid_pixel(x, y), "pixel ({}, {})", x, y);
            x += 1;
        }
        y += 1;
    }
    assert_eq!(pixel(&frame, 0, 0), GRID);
    assert_eq!(pixel(&frame, 1, 1), BACKGROUND);
    assert_eq!(pixel(&frame, 784, 599), GRID);
    assert_eq!(pixel(&frame, 799, 592), GRID);
    assert_eq!(pixel(&frame, 799, 599), BACKGROUND);
    assert_eq!(pixel(&frame, 0, 593), GRID);
    assert_eq!(pixel(&frame, 1, 593), BACKGROUND);
}

#[test]
fn grid_does_not_depend_on_what_the_frame_held() {
    let scene = Scene::new();
    let mut dark = new_frame(0);
    let mut bright = new_frame(255);
    scene.draw_grid(&mut dark);
    scene.draw_grid(&mut bright);
    assert!(dark == bright);
}

#[test]
fn cleared_scene_renders_only_the_grid() {
    let points: [(i32, i32); 4] = [(10, 10), (300, 500), (600, 40), (790, 590)];
    let mut scene = scene_of(&points);
    let curve = samples(&points, scene.sample_count());
    let mut before = new_frame(0);
    scene.print(&mut before, &curve);
    scene.clear_points();
    let mut after = new_frame(0);
    scene.print(&mut after, &curve);
    let mut grid = new_frame(0);
    Scene::new().print(&mut grid, &[]);
    assert!(after == grid);
    assert!(before != grid);
}

#[test]
fn one_point_draws_nothing_over_the_grid() {
    let scene = scene_of(&[(100, 100)]);
    let mut frame = new_frame(0);
    scene.print(&mut frame, &[Vector::new(1, 1), Vector::new(50, 50)]);
    let mut grid = new_frame(0);
    scene.draw_grid(&mut grid);
    assert!(frame == grid);
}

#[test]
fn two_points_draw_their_segment_and_no_curve() {
    let scene = scene_of(&[(17, 17), (30, 17)]);
    let mut frame = new_frame(0);
    scene.print(&mut frame, &[Vector::new(1, 100), Vector::new(15, 100), Vector::new(15, 110)]);
    let mut y: usize = 0;
    while y < HEIGHT as usize {
        let mut x: usize = 0;
        while x < WIDTH as usize {
            let expected = if y == 17 && (17..=30).contains(&x) {
                CONTROL
            } else {
                grid_pixel(x, y)
            };
            assert_eq!(pixel(&frame, x, y), expected, "pixel ({}, {})", x, y);
            x += 1;
        }
        y += 1;
    }
}

#[test]
fn three_points_draw_the_curve_under_the_control_polygon() {
    let scene = scene_of(&[(17, 17), (17, 20), (20, 20)]);
    let curve: Vec<Vector> = vec![Vector::new(17, 19), Vector::new(19, 19), Vector::new(19, 22)];
    let mut frame = new_frame(0);
    scene.print(&mut frame, &curve);
    let control: Vec<(usize, usize)> =
        vec![(17, 17), (17, 18), (17, 19), (17, 20), (18, 20), (19, 20), (20, 20)];
    let curved: Vec<(usize, usize)> = vec![(18, 19), (19, 19), (19, 21), (19, 22)];
    let mut y: usize = 0;
    while y < HEIGHT as usize {
        let mut x: usize = 0;
        while x < WIDTH as usize {
            let expected = if control.contains(&(x, y)) {
                CONTROL
            } else if curved.contains(&(x, y)) {
                CURVE
            } else {
                grid_pixel(x, y)
            };
            assert_eq!(pixel(&frame, x, y), expected, "pixel ({}, {})", x, y);
            x += 1;
        }
        y += 1;
    }
}

#[test]
fn rendering_twice_gives_the_same_frame() {
    let points: [(i32, i32); 3] = [(0, 0), (400, 0), (800, 599)];
    let scene = scene_of(&points);
    let curve = samples(&points, scene.sample_count());
    let mut first = new_frame(0);
    scene.print(&mut first, &curve);
    let mut second = first.clone();
    scene.print(&mut second, &curve);
    assert!(first == second);
}

#[test]
fn end_to_end_curve_over_the_grid() {
    let points: [(i32, i32); 3] = [(0, 0), (400, 0), (800, 599)];
    let mut scene = Scene::new();
    assert_eq!(scene.state(), SceneState::Empty);
    for point in points {
        scene.append_point(point.0, point.1);
    }
    assert_eq!(scene.sample_count(), 101);
    let curve = samples(&points, scene.sample_count());
    assert_eq!(curve.len(), 101);
    let mut frame = new_frame(0);
    scene.print(&mut frame, &curve);

    let mut i: usize = 45;
    while i <= 55 {
        let at = evaluate(&points, i as f32 / 100.0);
        let seen = pixel(&frame, at.0 as usize, at.1 as usize);
        assert_ne!(seen, BACKGROUND, "sample {}", i);
        assert_eq!(seen, CURVE, "sample {}", i);
        i += 1;
    }
    assert_eq!(evaluate(&points, 0.5), (400, 149));
    assert_eq!(pixel(&frame, 400, 149), CURVE);

    let mut x: usize = 16;
    while x < WIDTH as usize {
        let mut y: usize = 0;
        while y < HEIGHT as usize {
            let seen = pixel(&frame, x, y);
            assert!(seen == GRID || seen == CURVE || seen == CONTROL, "pixel ({}, {})", x, y);
            y += 1;
        }
        assert_eq!(pixel(&frame, x, 599), GRID);
        x += 16;
    }
    assert_eq!(pixel(&frame, 16, 300), GRID);
    assert_eq!(pixel(&frame, 200, 0), CONTROL);
    assert_eq!(pixel(&frame, 799, 599), BACKGROUND);
}

#[test]
fn curve_starts_and_ends_on_its_outer_control_points() {
    let points: [(i32, i32); 4] = [(12, 34), (500, 20), (40, 580), (700, 300)];
    assert_eq!(evaluate(&points, 0.0), (12, 34));
    assert_eq!(evaluate(&points, 1.0), (700, 300));
    let three: [(i32, i32); 3] = [(0, 0), (400, 0), (800, 599)];
    assert_eq!(evaluate(&three, 0.0), (0, 0));
    assert_eq!(evaluate(&three, 1.0), (800, 599));
}

#[test]
fn curve_over_collinear_points_stays_on_their_line() {
    let points: [(i32, i32); 3] = [(0, 0), (10, 0), (20, 0)];
    let mut last: i32 = 0;
    let mut i: usize = 0;
    while i <= 100 {
        let at = evaluate(&points, i as f32 / 100.0);
        assert_eq!(at.1, 0);
        assert!(at.0 >= last, "sample {}", i);
        last = at.0;
        i += 1;
    }
    assert_eq!(evaluate(&points, 0.5), (10, 0));
    assert_eq!(last, 20);
}
