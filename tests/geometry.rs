use drawing::clipping::{clip_image, clip_line, clip_rect, Clipping};
use drawing::primitive::{Brush, LineCap, LineJoin, PathElement, Primitive, Solidity, StrokeStyle};
use drawing::shapes::{rect_path, rounded_rect_path, rounded_rect_varying_path};
use drawing::transformation::Transformation;
use drawing::units::{Color, PixelPoint, PixelRect, PixelSize, PixelTransform, TexCoords, UV_ONE};

fn pt(x: i32, y: i32) -> PixelPoint {
    PixelPoint::new(x, y)
}

fn rect(x: i32, y: i32, w: i32, h: i32) -> PixelRect {
    PixelRect::new(pt(x, y), PixelSize::new(w, h))
}

fn red() -> Color {
    Color { r: 255, g: 0, b: 0, a: 255 }
}

fn square_path() -> Vec<PathElement> {
    vec![
        PathElement::MoveTo(pt(0, 0)),
        PathElement::LineTo(pt(0, 10)),
        PathElement::LineTo(pt(10, 10)),
        PathElement::LineTo(pt(10, 0)),
        PathElement::ClosePath,
    ]
}

fn sample_tree() -> Vec<Primitive> {
    vec![
        Primitive::Line { color: red(), thickness: 2, start_point: pt(1, 2), end_point: pt(30, 40) },
        Primitive::Rectangle { color: red(), rect: rect(5, 6, 7, 8) },
        Primitive::Image { resource_key: 3, rect: rect(0, 0, 16, 16), uv: TexCoords { u1: 0, v1: 0, u2: UV_ONE, v2: UV_ONE } },
        Primitive::Text {
            resource_key: "sans".to_string(),
            size: 12,
            color: red(),
            position: pt(4, 4),
            clipping_rect: rect(0, 0, 100, 20),
            text: "hello".to_string(),
        },
        Primitive::StrokeStyled {
            path: vec![
                PathElement::MoveTo(pt(0, 0)),
                PathElement::BezierTo(pt(1, 2), pt(3, 4), pt(5, 6)),
                PathElement::Solidity(Solidity::Hole),
            ],
            thickness: 3,
            brush: Brush::Solid { color: red() },
            style: StrokeStyle { line_cap: LineCap::Round, line_join: LineJoin::Round, miter_limit: 4 },
        },
        Primitive::ClipRect {
            rect: rect(0, 0, 50, 50),
            primitives: vec![Primitive::ClipPath {
                path: square_path(),
                primitives: vec![Primitive::Fill { path: square_path(), brush: Brush::Solid { color: red() } }],
            }],
        },
        Primitive::Transform {
            transform: PixelTransform { m11: 2, m12: 0, m21: 0, m22: 2, m31: 1, m32: 1 },
            primitives: vec![Primitive::Rectangle { color: red(), rect: rect(1, 1, 1, 1) }],
        },
        Primitive::Composite {
            color: red(),
            primitives: vec![Primitive::Stroke { path: square_path(), thickness: 1, brush: Brush::Solid { color: red() } }],
        },
    ]
}

#[test]
fn translate_then_back_restores_every_node() {
    let mut tree = sample_tree();
    tree.translate(pt(5, -7));
    assert_ne!(tree, sample_tree());
    tree.translate(pt(-5, 7));
    assert_eq!(tree, sample_tree());
}

#[test]
fn translate_moves_coordinates_and_post_translates_transforms() {
    let mut tree = sample_tree();
    tree.translate(pt(5, -7));
    match &tree[0] {
        Primitive::Line { start_point, end_point, .. } => {
            assert_eq!(*start_point, pt(6, -5));
            assert_eq!(*end_point, pt(35, 33));
        }
        other => panic!("unexpected {:?}", other),
    }
    match &tree[3] {
        Primitive::Text { position, clipping_rect, .. } => {
            assert_eq!(*position, pt(9, -3));
            assert_eq!(*clipping_rect, rect(5, -7, 100, 20));
        }
        other => panic!("unexpected {:?}", other),
    }
    match &tree[4] {
        Primitive::StrokeStyled { path, .. } => {
            assert_eq!(path[1], PathElement::BezierTo(pt(6, -5), pt(8, -3), pt(10, -1)));
            assert_eq!(path[2], PathElement::Solidity(Solidity::Hole));
        }
        other => panic!("unexpected {:?}", other),
    }
    match &tree[6] {
        Primitive::Transform { transform, primitives } => {
            assert_eq!(*transform, PixelTransform { m11: 2, m12: 0, m21: 0, m22: 2, m31: 6, m32: -6 });
            assert_eq!(primitives[0], Primitive::Rectangle { color: red(), rect: rect(1, 1, 1, 1) });
        }
        other => panic!("unexpected {:?}", other),
    }
}

#[test]
fn point_and_rect_translate() {
    let mut p = pt(1, 1);
    p.translate(pt(2, 3));
    assert_eq!(p, pt(3, 4));
    let mut r = rect(1, 1, 4, 4);
    r.translate(pt(-1, -1));
    assert_eq!(r, rect(0, 0, 4, 4));
    let t = PixelTransform::identity().post_translate(pt(7, 8));
    assert_eq!(t, PixelTransform { m11: 1, m12: 0, m21: 0, m22: 1, m31: 7, m32: 8 });
}

#[test]
fn nested_clip_rect_is_intersected() {
    let tree = vec![Primitive::ClipRect {
        rect: rect(0, 0, 50, 50),
        primitives: vec![Primitive::Rectangle { color: red(), rect: rect(40, 40, 20, 20) }],
    }];
    let clipped = tree.clip(rect(0, 0, 45, 45));
    assert_eq!(
        clipped,
        vec![Primitive::ClipRect {
            rect: rect(0, 0, 45, 45),
            primitives: vec![Primitive::Rectangle { color: red(), rect: rect(40, 40, 5, 5) }],
        }]
    );
}

#[test]
fn image_uv_follows_clipped_rect() {
    let tree = vec![Primitive::Image {
        resource_key: 1,
        rect: rect(0, 0, 100, 100),
        uv: TexCoords { u1: 0, v1: 0, u2: UV_ONE, v2: UV_ONE },
    }];
    let clipped = tree.clip(rect(0, 0, 50, 50));
    assert_eq!(
        clipped,
        vec![Primitive::Image {
            resource_key: 1,
            rect: rect(0, 0, 50, 50),
            uv: TexCoords { u1: 0, v1: 0, u2: UV_ONE / 2, v2: UV_ONE / 2 },
        }]
    );
}

#[test]
fn image_uv_remap_keeps_flipped_coordinates() {
    let r = clip_image(rect(0, 0, 100, 100), TexCoords { u1: UV_ONE, v1: 0, u2: 0, v2: UV_ONE }, rect(25, 50, 100, 100));
    assert_eq!(
        r,
        Some((rect(25, 50, 75, 50), TexCoords { u1: UV_ONE * 3 / 4, v1: UV_ONE / 2, u2: 0, v2: UV_ONE }))
    );
}

#[test]
fn primitives_inside_are_kept_and_outside_dropped() {
    let inside = vec![
        Primitive::Rectangle { color: red(), rect: rect(1, 1, 2, 2) },
        Primitive::Line { color: red(), thickness: 1, start_point: pt(0, 0), end_point: pt(10, 10) },
        Primitive::Fill { path: square_path(), brush: Brush::Solid { color: red() } },
    ];
    let expected = vec![
        Primitive::Rectangle { color: red(), rect: rect(1, 1, 2, 2) },
        Primitive::Line { color: red(), thickness: 1, start_point: pt(0, 0), end_point: pt(10, 10) },
        Primitive::Fill { path: square_path(), brush: Brush::Solid { color: red() } },
    ];
    assert_eq!(inside.clip(rect(0, 0, 10, 10)), expected);

    let outside = vec![
        Primitive::Rectangle { color: red(), rect: rect(20, 20, 2, 2) },
        Primitive::Line { color: red(), thickness: 1, start_point: pt(-5, -1), end_point: pt(5, -2) },
        Primitive::Text {
            resource_key: "sans".to_string(),
            size: 10,
            color: red(),
            position: pt(30, 30),
            clipping_rect: rect(30, 30, 5, 5),
            text: "x".to_string(),
        },
        Primitive::Composite {
            color: red(),
            primitives: vec![Primitive::Rectangle { color: red(), rect: rect(-9, 0, 2, 2) }],
        },
        Primitive::Fill { path: vec![PathElement::ClosePath], brush: Brush::Solid { color: red() } },
        Primitive::Transform { transform: PixelTransform::identity(), primitives: vec![] },
    ];
    assert_eq!(outside.clip(rect(0, 0, 10, 10)), vec![]);
}

#[test]
fn crossing_paths_and_transforms_are_wrapped_in_a_clip() {
    let tree = vec![
        Primitive::Fill { path: square_path(), brush: Brush::Solid { color: red() } },
        Primitive::Transform {
            transform: PixelTransform::identity(),
            primitives: vec![Primitive::Rectangle { color: red(), rect: rect(0, 0, 1, 1) }],
        },
    ];
    let clipped = tree.clip(rect(0, 0, 5, 5));
    assert_eq!(
        clipped,
        vec![
            Primitive::ClipRect {
                rect: rect(0, 0, 5, 5),
                primitives: vec![Primitive::Fill { path: square_path(), brush: Brush::Solid { color: red() } }],
            },
            Primitive::ClipRect {
                rect: rect(0, 0, 5, 5),
                primitives: vec![Primitive::Transform {
                    transform: PixelTransform::identity(),
                    primitives: vec![Primitive::Rectangle { color: red(), rect: rect(0, 0, 1, 1) }],
                }],
            },
        ]
    );
}

#[test]
fn stroke_reach_counts_for_thick_strokes() {
    let path = vec![PathElement::MoveTo(pt(5, 5)), PathElement::LineTo(pt(6, 5))];
    let thick = vec![Primitive::Stroke { path: path.clone(), thickness: 2, brush: Brush::Solid { color: red() } }];
    let clipped = thick.clip(rect(0, 0, 10, 10));
    assert!(matches!(clipped[0], Primitive::ClipRect { .. }));
    let thin = vec![Primitive::StrokeStyled {
        path,
        thickness: 1,
        brush: Brush::Solid { color: red() },
        style: StrokeStyle { line_cap: LineCap::Butt, line_join: LineJoin::Bevel, miter_limit: 0 },
    }];
    let clipped = thin.clip(rect(0, 0, 10, 10));
    assert!(matches!(clipped[0], Primitive::StrokeStyled { .. }));
}

#[test]
fn rect_intersection_edges() {
    assert_eq!(clip_rect(rect(0, 0, 10, 10), rect(5, 5, 10, 10)), Some(rect(5, 5, 5, 5)));
    assert_eq!(clip_rect(rect(0, 0, 10, 10), rect(10, 0, 5, 5)), Some(rect(10, 0, 0, 5)));
    assert_eq!(clip_rect(rect(0, 0, 10, 10), rect(11, 0, 5, 5)), None);
    assert_eq!(clip_rect(rect(2, 2, 3, 3), rect(0, 0, 10, 10)), Some(rect(2, 2, 3, 3)));
}

#[test]
fn line_clipping_cuts_at_the_edges() {
    let r = rect(0, 0, 10, 10);
    assert_eq!(clip_line(pt(-10, 5), pt(20, 5), r), Some((pt(0, 5), pt(10, 5))));
    assert_eq!(clip_line(pt(-5, -5), pt(15, 15), r), Some((pt(0, 0), pt(10, 10))));
    assert_eq!(clip_line(pt(2, 3), pt(4, 5), r), Some((pt(2, 3), pt(4, 5))));
    assert_eq!(clip_line(pt(-5, 0), pt(-1, 10), r), None);
    assert_eq!(clip_line(pt(0, 0), pt(5, 5), rect(0, 0, -1, 5)), None);
    assert_eq!(clip_line(pt(5, -3), pt(5, 20), r), Some((pt(5, 0), pt(5, 10))));
}

#[test]
fn segment_passing_a_corner_outside_is_dropped() {
    let r = rect(0, 0, 10, 10);
    assert_eq!(clip_line(pt(-1, 0), pt(1, -1), r), None);
    assert_eq!(clip_line(pt(-1, 1), pt(1, -1), r), Some((pt(0, 0), pt(0, 0))));
    let tree = vec![Primitive::Line { color: red(), thickness: 1, start_point: pt(-1, 0), end_point: pt(1, -1) }];
    assert_eq!(tree.clip(r), vec![]);
}

#[test]
fn rect_path_winds_from_top_left() {
    assert_eq!(
        rect_path(rect(1, 2, 3, 4)),
        vec![
            PathElement::MoveTo(pt(1, 2)),
            PathElement::LineTo(pt(1, 6)),
            PathElement::LineTo(pt(4, 6)),
            PathElement::LineTo(pt(4, 2)),
            PathElement::ClosePath,
        ]
    );
}

#[test]
fn zero_radii_give_the_plain_rectangle() {
    let r = rect(3, 4, 20, 10);
    assert_eq!(rounded_rect_varying_path(r, 0, 0, 0, 0), rect_path(r));
    assert_eq!(rounded_rect_path(r, -3), rect_path(r));
}

#[test]
fn oversized_radii_are_clamped_to_half() {
    let path = rounded_rect_varying_path(rect(0, 0, 10, 20), 100, 100, 100, 100);
    assert_eq!(
        path,
        vec![
            PathElement::MoveTo(pt(0, 10)),
            PathElement::LineTo(pt(0, 10)),
            PathElement::BezierTo(pt(0, 16), pt(2, 20), pt(5, 20)),
            PathElement::LineTo(pt(5, 20)),
            PathElement::BezierTo(pt(8, 20), pt(10, 16), pt(10, 10)),
            PathElement::LineTo(pt(10, 10)),
            PathElement::BezierTo(pt(10, 4), pt(8, 0), pt(5, 0)),
            PathElement::LineTo(pt(5, 0)),
            PathElement::BezierTo(pt(2, 0), pt(0, 4), pt(0, 10)),
            PathElement::ClosePath,
        ]
    );
}

#[test]
fn radii_follow_negative_extents() {
    let path = rounded_rect_path(rect(10, 10, -10, -10), 4);
    assert_eq!(path[0], PathElement::MoveTo(pt(10, 6)));
    assert_eq!(path[1], PathElement::LineTo(pt(10, 4)));
    assert_eq!(path[2], PathElement::BezierTo(pt(10, 1), pt(9, 0), pt(6, 0)));
    assert_eq!(path[9], PathElement::ClosePath);
}
