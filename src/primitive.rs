use vstd::prelude::*;

use crate::units::{Color, PixelPoint, PixelRect, PixelTransform, TexCoords};

verus! {

/// The winding of a sub-path: `Solid` contours add coverage, `Hole` contours remove it.
#[derive(Clone, Copy, Debug, PartialEq, Eq, Structural)]
pub enum Solidity {
    Solid,
    Hole,
}

/// One step of a vector path.
#[derive(Clone, Copy, Debug, PartialEq, Eq, Structural)]
pub enum PathElement {
    MoveTo(PixelPoint),
    LineTo(PixelPoint),
    BezierTo(PixelPoint, PixelPoint, PixelPoint),
    ClosePath,
    Solidity(Solidity),
}

#[derive(Clone, Copy, Debug, PartialEq, Eq, Structural)]
pub enum LineCap {
    Butt,
    Round,
    Square,
}

#[derive(Clone, Copy, Debug, PartialEq, Eq, Structural)]
pub enum LineJoin {
    Miter,
    Round,
    Bevel,
}

/// How a stroke ends and turns. A miter join longer than `miter_limit`
/// half-widths is drawn as a bevel.
#[derive(Clone, Copy, Debug, PartialEq, Eq, Structural)]
pub struct StrokeStyle {
    pub line_cap: LineCap,
    pub line_join: LineJoin,
    pub miter_limit: u8,
}

pub const DEFAULT_MITER_LIMIT: u8 = 10;

impl StrokeStyle {
    pub open spec fn default_spec() -> StrokeStyle {
        StrokeStyle {
            line_cap: LineCap::Butt,
            line_join: LineJoin::Miter,
            miter_limit: DEFAULT_MITER_LIMIT,
        }
    }

    /// Butt caps, miter joins, a miter limit of ten half-widths.
    pub fn default_style() -> (r: StrokeStyle)
        ensures
            r == Self::default_spec(),
    {
        StrokeStyle {
            line_cap: LineCap::Butt,
            line_join: LineJoin::Miter,
            miter_limit: DEFAULT_MITER_LIMIT,
        }
    }
}

/// The source of color for strokes and fills.
#[derive(Clone, Copy, Debug, PartialEq, Eq, Structural)]
pub enum Brush {
    Solid { color: Color },
}

/// A node of the scene tree; structural nodes own their children.
#[allow(inconsistent_fields)]
#[derive(Debug, PartialEq)]
pub enum Primitive {
    Line { color: Color, thickness: i32, start_point: PixelPoint, end_point: PixelPoint },
    Rectangle { color: Color, rect: PixelRect },
    Image { resource_key: u32, rect: PixelRect, uv: TexCoords },
    Text {
        resource_key: String,
        size: u16,
        color: Color,
        position: PixelPoint,
        clipping_rect: PixelRect,
        text: String,
    },
    Stroke { path: Vec<PathElement>, thickness: i32, brush: Brush },
    StrokeStyled { path: Vec<PathElement>, thickness: i32, brush: Brush, style: StrokeStyle },
    Fill { path: Vec<PathElement>, brush: Brush },
    ClipRect { rect: PixelRect, primitives: Vec<Primitive> },
    ClipPath { path: Vec<PathElement>, primitives: Vec<Primitive> },
    Transform { transform: PixelTransform, primitives: Vec<Primitive> },
    Composite { color: Color, primitives: Vec<Primitive> },
}

/// The mathematical value of a `Primitive`: the same tree with sequences in place of vectors.
#[allow(inconsistent_fields)]
pub enum PrimitiveModel {
    Line { color: Color, thickness: i32, start_point: PixelPoint, end_point: PixelPoint },
    Rectangle { color: Color, rect: PixelRect },
    Image { resource_key: u32, rect: PixelRect, uv: TexCoords },
    Text {
        resource_key: Seq<char>,
        size: u16,
        color: Color,
        position: PixelPoint,
        clipping_rect: PixelRect,
        text: Seq<char>,
    },
    Stroke { path: Seq<PathElement>, thickness: i32, brush: Brush },
    StrokeStyled { path: Seq<PathElement>, thickness: i32, brush: Brush, style: StrokeStyle },
    Fill { path: Seq<PathElement>, brush: Brush },
    ClipRect { rect: PixelRect, primitives: Seq<PrimitiveModel> },
    ClipPath { path: Seq<PathElement>, primitives: Seq<PrimitiveModel> },
    Transform { transform: PixelTransform, primitives: Seq<PrimitiveModel> },
    Composite { color: Color, primitives: Seq<PrimitiveModel> },
}

impl View for Primitive {
    type V = PrimitiveModel;

    open spec fn view(&self) -> PrimitiveModel {
        primitive_model(*self)
    }
}

/// The model of one primitive, children included.
pub open spec fn primitive_model(p: Primitive) -> PrimitiveModel
    decreases p,
{
        match p {
            Primitive::Line { color, thickness, start_point, end_point } => PrimitiveModel::Line {
                color: color,
                thickness: thickness,
                start_point: start_point,
                end_point: end_point,
            },
            Primitive::Rectangle { color, rect } => PrimitiveModel::Rectangle {
                color: color,
                rect: rect,
            },
            Primitive::Image { resource_key, rect, uv } => PrimitiveModel::Image {
                resource_key: resource_key,
                rect: rect,
                uv: uv,
            },
            Primitive::Text { resource_key, size, color, position, clipping_rect, text } =>
                PrimitiveModel::Text {
                resource_key: resource_key@,
                size: size,
                color: color,
                position: position,
                clipping_rect: clipping_rect,
                text: text@,
            },
            Primitive::Stroke { path, thickness, brush } => PrimitiveModel::Stroke {
                path: path@,
                thickness: thickness,
                brush: brush,
            },
            Primitive::StrokeStyled { path, thickness, brush, style } =>
                PrimitiveModel::StrokeStyled {
                path: path@,
                thickness: thickness,
                brush: brush,
                style: style,
            },
            Primitive::Fill { path, brush } => PrimitiveModel::Fill { path: path@, brush: brush },
            Primitive::ClipRect { rect, primitives } => PrimitiveModel::ClipRect {
                rect: rect,
                primitives: Seq::new(
                    primitives@.len(),
                    |i: int|
                        if 0 <= i < primitives@.len() {
                            primitive_model(primitives@[i])
                        } else {
                            arbitrary()
                        },
                ),
            },
            Primitive::ClipPath { path, primitives } => PrimitiveModel::ClipPath {
                path: path@,
                primitives: Seq::new(
                    primitives@.len(),
                    |i: int|
                        if 0 <= i < primitives@.len() {
                            primitive_model(primitives@[i])
                        } else {
                            arbitrary()
                        },
                ),
            },
            Primitive::Transform { transform, primitives } => PrimitiveModel::Transform {
                transform: transform,
                primitives: Seq::new(
                    primitives@.len(),
                    |i: int|
                        if 0 <= i < primitives@.len() {
                            primitive_model(primitives@[i])
                        } else {
                            arbitrary()
                        },
                ),
            },
            Primitive::Composite { color, primitives } => PrimitiveModel::Composite {
                color: color,
                primitives: Seq::new(
                    primitives@.len(),
                    |i: int|
                        if 0 <= i < primitives@.len() {
                            primitive_model(primitives@[i])
                        } else {
                            arbitrary()
                        },
                ),
            },
        }
}

/// The models of a sequence of primitives.
pub open spec fn prims_view(s: Seq<Primitive>) -> Seq<PrimitiveModel> {
    Seq::new(s.len(), |i: int| s[i]@)
}

impl Primitive {
    /// The children of a structural node, and nothing for the other nodes.
    pub open spec fn children(&self) -> Seq<Primitive> {
        match self {
            Primitive::ClipRect { primitives, .. } => primitives@,
            Primitive::ClipPath { primitives, .. } => primitives@,
            Primitive::Transform { primitives, .. } => primitives@,
            Primitive::Composite { primitives, .. } => primitives@,
            _ => Seq::empty(),
        }
    }
}

impl PrimitiveModel {
    /// The children of a structural node, and nothing for the other nodes.
    pub open spec fn children(self) -> Seq<PrimitiveModel> {
        match self {
            PrimitiveModel::ClipRect { primitives, .. } => primitives,
            PrimitiveModel::ClipPath { primitives, .. } => primitives,
            PrimitiveModel::Transform { primitives, .. } => primitives,
            PrimitiveModel::Composite { primitives, .. } => primitives,
            _ => Seq::empty(),
        }
    }
}

/// The model of a node's children is the model of its child vector.
pub proof fn lemma_children_view(p: Primitive)
    ensures
        p@.children() == prims_view(p.children()),
{
    assert(p@.children() =~= prims_view(p.children()));
}

} // verus!
