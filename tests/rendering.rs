use drawing::expand::{expand_fill, rect_triangles, Triangle};
use drawing::path::{flatten, SubPath};
use drawing::primitive::{Brush, LineCap, LineJoin, PathElement, Primitive, Solidity, StrokeStyle};
use drawing::renderer::{pending_after, DrawCommand, Renderer, DEFAULT_TOLERANCE};
use drawing::units::{Color, PixelPoint, PixelRect, PixelSize, PixelTransform};

fn pt(x: i32, y: i32) -> PixelPoint {
    PixelPoint::new(x, y)
}

fn rect(x: i32, y: i32, w: i32, h: i32) -> PixelRect {
    PixelRect::new(pt(x, y), PixelSize::new(w, h))
}

fn blue() -> Color {
    Color { r: 0, g: 0, b: 255, a: 255 }
}

fn square_path() -> Vec<PathElement> {
    vec![
        PathElement::MoveTo(pt(0, 0)),
        PathElement::LineTo(pt(0, 10)),
        PathElement::LineTo(pt(10, 10)),
        PathElement::LineTo(pt(10, 0)),
        PathElement::ClosePath,
    ]
}

fn style(join: LineJoin, miter_limit: u8) -> StrokeStyle {
    StrokeStyle { line_cap: LineCap::Butt, line_join: join, miter_limit }
}

#[test]
fn flatten_collapses_repeated_points() {
    let path = vec![
        PathElement::MoveTo(pt(0, 0)),
        PathElement::LineTo(pt(10, 0)),
        PathElement::LineTo(pt(10, 0)),
        PathElement::LineTo(pt(10, 10)),
        PathElement::ClosePath,
    ];
    assert_eq!(
        flatten(&path, 1),
        vec![SubPath { points: vec![pt(0, 0), pt(10, 0), pt(10, 10)], closed: true, solidity: Solidity::Solid }]
    );
}

#[test]
fn closing_drops_a_point_that_repeats_the_start() {
    let path = vec![
        PathElement::MoveTo(pt(0, 0)),
        PathElement::LineTo(pt(10, 0)),
        PathElement::LineTo(pt(0, 0)),
        PathElement::ClosePath,
        PathElement::Solidity(Solidity::Hole),
    ];
    assert_eq!(
        flatten(&path, 1),
        vec![SubPath { points: vec![pt(0, 0), pt(10, 0)], closed: true, solidity: Solidity::Hole }]
    );
}

#[test]
fn drawing_continues_from_the_start_of_a_closed_sub_path() {
    let path = vec![
        PathElement::MoveTo(pt(1, 1)),
        PathElement::LineTo(pt(5, 1)),
        PathElement::ClosePath,
        PathElement::LineTo(pt(1, 9)),
        PathElement::MoveTo(pt(3, 3)),
    ];
    let subs = flatten(&path, 1);
    assert_eq!(subs.len(), 3);
    assert_eq!(subs[0].points, vec![pt(1, 1), pt(5, 1)]);
    assert!(subs[0].closed);
    assert_eq!(subs[1].points, vec![pt(1, 1), pt(1, 9)]);
    assert!(!subs[1].closed);
    assert_eq!(subs[2].points, vec![pt(3, 3)]);
    assert_eq!(flatten(&vec![PathElement::LineTo(pt(5, 5))], 1)[0].points, vec![pt(5, 5)]);
}

#[test]
fn straight_curve_flattens_to_its_chord() {
    let path = vec![PathElement::MoveTo(pt(0, 0)), PathElement::BezierTo(pt(10, 0), pt(20, 0), pt(30, 0))];
    assert_eq!(flatten(&path, 1)[0].points, vec![pt(0, 0), pt(30, 0)]);
}

#[test]
fn curved_segment_is_subdivided_within_its_hull() {
    let path = vec![PathElement::MoveTo(pt(0, 0)), PathElement::BezierTo(pt(0, 100), pt(100, 100), pt(100, 0))];
    let subs = flatten(&path, 1);
    let points = &subs[0].points;
    assert!(points.len() > 8);
    assert_eq!(points[0], pt(0, 0));
    assert_eq!(points[points.len() - 1], pt(100, 0));
    for p in points {
        assert!(0 <= p.x && p.x <= 100 && 0 <= p.y && p.y <= 100);
    }
    let coarse = flatten(&path, 50);
    assert!(coarse[0].points.len() < points.len());
}

#[test]
fn rectangle_fill_is_two_triangles() {
    let triangles = Renderer::new().get_fill_path(&square_path());
    assert_eq!(
        triangles,
        vec![
            Triangle { a: pt(10, 0), b: pt(10, 10), c: pt(0, 10) },
            Triangle { a: pt(10, 0), b: pt(0, 10), c: pt(0, 0) },
        ]
    );
    let area2: i64 = triangles
        .iter()
        .map(|t| {
            let (ax, ay) = (t.a.x as i64, t.a.y as i64);
            ((t.b.x as i64 - ax) * (t.c.y as i64 - ay) - (t.c.x as i64 - ax) * (t.b.y as i64 - ay)).abs()
        })
        .sum();
    assert_eq!(area2, 200);
}

#[test]
fn hole_contours_keep_the_opposite_orientation() {
    let mut path = square_path();
    path.push(PathElement::Solidity(Solidity::Hole));
    let triangles = Renderer::new().get_fill_path(&path);
    assert_eq!(
        triangles,
        vec![
            Triangle { a: pt(0, 0), b: pt(0, 10), c: pt(10, 10) },
            Triangle { a: pt(0, 0), b: pt(10, 10), c: pt(10, 0) },
        ]
    );
}

#[test]
fn short_contours_fill_nothing() {
    let subs = flatten(&vec![PathElement::MoveTo(pt(0, 0)), PathElement::LineTo(pt(4, 4))], 1);
    assert_eq!(expand_fill(&subs), vec![]);
}

#[test]
fn zero_miter_limit_bevels_every_joint() {
    let path = vec![
        PathElement::MoveTo(pt(0, 0)),
        PathElement::LineTo(pt(10, 0)),
        PathElement::LineTo(pt(10, 10)),
        PathElement::LineTo(pt(20, 10)),
    ];
    let r = Renderer::new();
    assert_eq!(r.get_stroke_path(&path, style(LineJoin::Miter, 0))[0].joins, vec![LineJoin::Bevel, LineJoin::Bevel]);
    assert_eq!(r.get_stroke_path(&path, style(LineJoin::Miter, 1))[0].joins, vec![LineJoin::Bevel, LineJoin::Bevel]);
    assert_eq!(r.get_stroke_path(&path, style(LineJoin::Miter, 2))[0].joins, vec![LineJoin::Miter, LineJoin::Miter]);
    assert_eq!(r.get_stroke_path(&path, style(LineJoin::Round, 0))[0].joins, vec![LineJoin::Round, LineJoin::Round]);
}

#[test]
fn sharp_turn_exceeds_the_miter_limit() {
    let path = vec![PathElement::MoveTo(pt(0, 0)), PathElement::LineTo(pt(10, 0)), PathElement::LineTo(pt(0, 1))];
    let r = Renderer::new();
    assert_eq!(r.get_stroke_path(&path, style(LineJoin::Miter, 10))[0].joins, vec![LineJoin::Bevel]);
    assert_eq!(r.get_stroke_path(&path, style(LineJoin::Miter, 25))[0].joins, vec![LineJoin::Miter]);
}

#[test]
fn closed_outline_has_a_join_at_every_corner() {
    let strokes = Renderer::new().get_stroke_path(&square_path(), StrokeStyle::default_style());
    assert_eq!(strokes.len(), 1);
    assert!(strokes[0].closed);
    assert_eq!(strokes[0].points, vec![pt(0, 0), pt(0, 10), pt(10, 10), pt(10, 0)]);
    assert_eq!(strokes[0].joins, vec![LineJoin::Miter; 4]);
}

#[test]
fn draw_emits_balanced_commands() {
    let tree = vec![
        Primitive::ClipRect {
            rect: rect(0, 0, 10, 10),
            primitives: vec![
                Primitive::Rectangle { color: blue(), rect: rect(1, 1, 2, 2) },
                Primitive::Composite {
                    color: blue(),
                    primitives: vec![Primitive::Line { color: blue(), thickness: 1, start_point: pt(0, 0), end_point: pt(3, 3) }],
                },
            ],
        },
        Primitive::Transform { transform: PixelTransform::identity(), primitives: vec![] },
    ];
    let mut renderer = Renderer::new();
    let cmds = renderer.draw(&tree);
    assert_eq!(
        cmds,
        vec![
            DrawCommand::SaveState,
            DrawCommand::SetClipRect { rect: rect(0, 0, 10, 10) },
            DrawCommand::Rect { color: blue(), rect: rect(1, 1, 2, 2) },
            DrawCommand::BeginLayer,
            DrawCommand::Line { color: blue(), thickness: 1, start_point: pt(0, 0), end_point: pt(3, 3) },
            DrawCommand::EndLayer { color: blue() },
            DrawCommand::RestoreState,
            DrawCommand::SaveState,
            DrawCommand::Transform { transform: PixelTransform::identity() },
            DrawCommand::RestoreState,
        ]
    );
    assert_eq!(pending_after(&cmds, 4), Some((1, 1)));
    assert_eq!(pending_after(&cmds, 7), Some((0, 0)));
    assert_eq!(pending_after(&cmds, 8), Some((1, 0)));
    assert_eq!(pending_after(&cmds, cmds.len()), Some((0, 0)));
}

#[test]
fn closing_what_was_never_opened_is_reported() {
    let cmds = vec![DrawCommand::SaveState, DrawCommand::RestoreState, DrawCommand::RestoreState];
    assert_eq!(pending_after(&cmds, 2), Some((0, 0)));
    assert_eq!(pending_after(&cmds, 3), None);
    let layers = vec![DrawCommand::EndLayer { color: blue() }];
    assert_eq!(pending_after(&layers, 0), Some((0, 0)));
    assert_eq!(pending_after(&layers, 1), None);
}

#[test]
fn draw_expands_fills_and_strokes() {
    let tree = vec![
        Primitive::Fill { path: square_path(), brush: Brush::Solid { color: blue() } },
        Primitive::Stroke { path: square_path(), thickness: 2, brush: Brush::Solid { color: blue() } },
        Primitive::ClipPath { path: square_path(), primitives: vec![] },
    ];
    let mut renderer = Renderer::with_tolerance(2);
    assert_eq!(renderer.tolerance, 2);
    assert_eq!(Renderer::new().tolerance, DEFAULT_TOLERANCE);
    let cmds = renderer.draw(&tree);
    assert_eq!(cmds.len(), 5);
    assert_eq!(
        cmds[0],
        DrawCommand::Fill { triangles: renderer.get_fill_path(&square_path()), brush: Brush::Solid { color: blue() } }
    );
    assert_eq!(
        cmds[1],
        DrawCommand::Stroke {
            paths: renderer.get_stroke_path(&square_path(), StrokeStyle::default_style()),
            thickness: 2,
            brush: Brush::Solid { color: blue() },
            style: StrokeStyle::default_style(),
        }
    );
    assert_eq!(cmds[3], DrawCommand::SetClipPath { triangles: renderer.get_fill_path(&square_path()) });
}

fn distance_to_segment(p: (f64, f64), a: (f64, f64), b: (f64, f64)) -> f64 {
    let (dx, dy) = (b.0 - a.0, b.1 - a.1);
    let len2 = dx * dx + dy * dy;
    let t = if len2 == 0.0 { 0.0 } else { (((p.0 - a.0) * dx + (p.1 - a.1) * dy) / len2).max(0.0).min(1.0) };
    let (qx, qy) = (a.0 + t * dx, a.1 + t * dy);
    ((p.0 - qx).powi(2) + (p.1 - qy).powi(2)).sqrt()
}

#[test]
fn flattened_curve_stays_near_the_true_curve() {
    let (c0, c1, c2, c3) = ((0.0, 0.0), (0.0, 400.0), (400.0, 400.0), (400.0, 0.0));
    let path = vec![PathElement::MoveTo(pt(0, 0)), PathElement::BezierTo(pt(0, 400), pt(400, 400), pt(400, 0))];
    for tol in [1u32, 4, 16].iter() {
        let points: Vec<(f64, f64)> = flatten(&path, *tol)[0].points.iter().map(|p| (p.x as f64, p.y as f64)).collect();
        let mut worst: f64 = 0.0;
        for i in 0..=1000 {
            let t = i as f64 / 1000.0;
            let s = 1.0 - t;
            let b = (
                s * s * s * c0.0 + 3.0 * s * s * t * c1.0 + 3.0 * s * t * t * c2.0 + t * t * t * c3.0,
                s * s * s * c0.1 + 3.0 * s * s * t * c1.1 + 3.0 * s * t * t * c2.1 + t * t * t * c3.1,
            );
            let d = points.windows(2).map(|w| distance_to_segment(b, w[0], w[1])).fold(f64::MAX, f64::min);
            worst = worst.max(d);
        }
        // each axis within the tolerance, plus the rounding of halved control points
        assert!(worst <= (*tol as f64) * 2f64.sqrt() + 2.0, "tolerance {} strayed {}", tol, worst);
    }
}

#[test]
fn rectangle_is_covered_by_two_triangles() {
    assert_eq!(
        rect_triangles(rect(1, 2, 3, 4)),
        vec![
            Triangle { a: pt(1, 2), b: pt(4, 2), c: pt(1, 6) },
            Triangle { a: pt(4, 2), b: pt(4, 6), c: pt(1, 6) },
        ]
    );
}
