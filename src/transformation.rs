use vstd::prelude::*;

use crate::primitive::{prims_view, PathElement, Primitive, PrimitiveModel};
use crate::units::{PixelPoint, PixelRect};

verus! {

/// Moving geometry by an offset.
pub trait Transformation: Sized {
    /// Every coordinate stays representable when moved by `offset`.
    spec fn can_translate(&self, offset: PixelPoint) -> bool;

    /// `self` is `before` moved by `offset`.
    spec fn is_translation_of(&self, before: Self, offset: PixelPoint) -> bool;

    fn translate(&mut self, offset: PixelPoint)
        requires
            old(self).can_translate(offset),
        ensures
            final(self).is_translation_of(*old(self), offset),
    ;
}

impl Transformation for PixelPoint {
    open spec fn can_translate(&self, offset: PixelPoint) -> bool {
        self.can_shift(offset)
    }

    open spec fn is_translation_of(&self, before: PixelPoint, offset: PixelPoint) -> bool {
        *self == before.shifted(offset)
    }

    fn translate(&mut self, offset: PixelPoint) {
        PixelPoint::translate(self, offset);
    }
}

impl Transformation for PixelRect {
    open spec fn can_translate(&self, offset: PixelPoint) -> bool {
        self.origin.can_shift(offset)
    }

    open spec fn is_translation_of(&self, before: PixelRect, offset: PixelPoint) -> bool {
        *self == before.shifted(offset)
    }

    fn translate(&mut self, offset: PixelPoint) {
        PixelRect::translate(self, offset);
    }
}

/// The offset pointing the other way.
pub open spec fn negated(o: PixelPoint) -> PixelPoint {
    PixelPoint { x: (-o.x) as i32, y: (-o.y) as i32 }
}

impl PathElement {
    pub open spec fn can_shift(self, o: PixelPoint) -> bool {
        match self {
            PathElement::MoveTo(p) => p.can_shift(o),
            PathElement::LineTo(p) => p.can_shift(o),
            PathElement::BezierTo(c1, c2, p) => c1.can_shift(o) && c2.can_shift(o) && p.can_shift(o),
            _ => true,
        }
    }

    /// The element with every point moved by `o`; markers are unchanged.
    pub open spec fn shifted(self, o: PixelPoint) -> PathElement {
        match self {
            PathElement::MoveTo(p) => PathElement::MoveTo(p.shifted(o)),
            PathElement::LineTo(p) => PathElement::LineTo(p.shifted(o)),
            PathElement::BezierTo(c1, c2, p) => PathElement::BezierTo(
                c1.shifted(o),
                c2.shifted(o),
                p.shifted(o),
            ),
            _ => self,
        }
    }

    pub fn translated(self, offset: PixelPoint) -> (r: PathElement)
        requires
            self.can_shift(offset),
        ensures
            r == self.shifted(offset),
    {
        match self {
            PathElement::MoveTo(p) => {
                let mut p = p;
                p.translate(offset);
                PathElement::MoveTo(p)
            },
            PathElement::LineTo(p) => {
                let mut p = p;
                p.translate(offset);
                PathElement::LineTo(p)
            },
            PathElement::BezierTo(c1, c2, p) => {
                let mut c1 = c1;
                let mut c2 = c2;
                let mut p = p;
                c1.translate(offset);
                c2.translate(offset);
                p.translate(offset);
                PathElement::BezierTo(c1, c2, p)
            },
            _ => self,
        }
    }
}

pub open spec fn path_can_shift(path: Seq<PathElement>, o: PixelPoint) -> bool {
    forall|i: int| 0 <= i < path.len() ==> #[trigger] path[i].can_shift(o)
}

pub open spec fn path_shifted(path: Seq<PathElement>, o: PixelPoint) -> Seq<PathElement> {
    Seq::new(path.len(), |i: int| path[i].shifted(o))
}

/// Every coordinate of the tree stays representable when moved by `o`.
pub open spec fn model_can_shift(m: PrimitiveModel, o: PixelPoint) -> bool
    decreases m,
{
    match m {
        PrimitiveModel::Line { start_point, end_point, .. } => start_point.can_shift(o)
            && end_point.can_shift(o),
        PrimitiveModel::Rectangle { rect, .. } => rect.origin.can_shift(o),
        PrimitiveModel::Image { rect, .. } => rect.origin.can_shift(o),
        PrimitiveModel::Text { position, clipping_rect, .. } => position.can_shift(o)
            && clipping_rect.origin.can_shift(o),
        PrimitiveModel::Stroke { path, .. } => path_can_shift(path, o),
        PrimitiveModel::StrokeStyled { path, .. } => path_can_shift(path, o),
        PrimitiveModel::Fill { path, .. } => path_can_shift(path, o),
        PrimitiveModel::ClipRect { rect, primitives } => rect.origin.can_shift(o) && forall|i: int|
            0 <= i < primitives.len() ==> model_can_shift(#[trigger] primitives[i], o),
        PrimitiveModel::ClipPath { path, primitives } => path_can_shift(path, o) && forall|i: int|
            0 <= i < primitives.len() ==> model_can_shift(#[trigger] primitives[i], o),
        PrimitiveModel::Transform { transform, .. } => transform.can_post_translate(o),
        PrimitiveModel::Composite { primitives, .. } => forall|i: int|
            0 <= i < primitives.len() ==> model_can_shift(#[trigger] primitives[i], o),
    }
}

/// The tree moved by `o`: every coordinate gains `o`, except below a `Transform`
/// node, whose matrix is followed by the translation instead.
pub open spec fn model_shifted(m: PrimitiveModel, o: PixelPoint) -> PrimitiveModel
    decreases m,
{
    match m {
        PrimitiveModel::Line { color, thickness, start_point, end_point } => PrimitiveModel::Line {
            color,
            thickness,
            start_point: start_point.shifted(o),
            end_point: end_point.shifted(o),
        },
        PrimitiveModel::Rectangle { color, rect } => PrimitiveModel::Rectangle {
            color,
            rect: rect.shifted(o),
        },
        PrimitiveModel::Image { resource_key, rect, uv } => PrimitiveModel::Image {
            resource_key,
            rect: rect.shifted(o),
            uv,
        },
        PrimitiveModel::Text { resource_key, size, color, position, clipping_rect, text } =>
            PrimitiveModel::Text {
            resource_key,
            size,
            color,
            position: position.shifted(o),
            clipping_rect: clipping_rect.shifted(o),
            text,
        },
        PrimitiveModel::Stroke { path, thickness, brush } => PrimitiveModel::Stroke {
            path: path_shifted(path, o),
            thickness,
            brush,
        },
        PrimitiveModel::StrokeStyled { path, thickness, brush, style } =>
            PrimitiveModel::StrokeStyled { path: path_shifted(path, o), thickness, brush, style },
        PrimitiveModel::Fill { path, brush } => PrimitiveModel::Fill {
            path: path_shifted(path, o),
            brush,
        },
        PrimitiveModel::ClipRect { rect, primitives } => PrimitiveModel::ClipRect {
            rect: rect.shifted(o),
            primitives: Seq::new(
                primitives.len(),
                |i: int|
                    if 0 <= i < primitives.len() {
                        model_shifted(primitives[i], o)
                    } else {
                        arbitrary()
                    },
            ),
        },
        PrimitiveModel::ClipPath { path, primitives } => PrimitiveModel::ClipPath {
            path: path_shifted(path, o),
            primitives: Seq::new(
                primitives.len(),
                |i: int|
                    if 0 <= i < primitives.len() {
                        model_shifted(primitives[i], o)
                    } else {
                        arbitrary()
                    },
            ),
        },
        PrimitiveModel::Transform { transform, primitives } => PrimitiveModel::Transform {
            transform: transform.post_translated(o),
            primitives,
        },
        PrimitiveModel::Composite { color, primitives } => PrimitiveModel::Composite {
            color,
            primitives: Seq::new(
                primitives.len(),
                |i: int|
                    if 0 <= i < primitives.len() {
                        model_shifted(primitives[i], o)
                    } else {
                        arbitrary()
                    },
            ),
        },
    }
}

pub open spec fn models_can_shift(s: Seq<PrimitiveModel>, o: PixelPoint) -> bool {
    forall|i: int| 0 <= i < s.len() ==> model_can_shift(#[trigger] s[i], o)
}

pub open spec fn models_shifted(s: Seq<PrimitiveModel>, o: PixelPoint) -> Seq<PrimitiveModel> {
    Seq::new(s.len(), |i: int| model_shifted(s[i], o))
}

proof fn lemma_child_can_shift(m: PrimitiveModel, o: PixelPoint, j: int)
    requires
        model_can_shift(m, o),
        !(m is Transform),
        0 <= j < m.children().len(),
    ensures
        model_can_shift(m.children()[j], o),
{
    if m is ClipRect {
        assert(model_can_shift(m->ClipRect_primitives[j], o));
    } else if m is ClipPath {
        assert(model_can_shift(m->ClipPath_primitives[j], o));
    } else if m is Composite {
        assert(model_can_shift(m->Composite_primitives[j], o));
    }
}

fn translated_path(path: Vec<PathElement>, offset: PixelPoint) -> (r: Vec<PathElement>)
    requires
        path_can_shift(path@, offset),
    ensures
        r@ == path_shifted(path@, offset),
{
    let mut path = path;
    let ghost before = path@;
    let n = path.len();
    let mut i: usize = 0;
    while i < n
        invariant
            n == before.len(),
            path@.len() == n,
            i <= n,
            path_can_shift(before, offset),
            forall|j: int| 0 <= j < i ==> path@[j] == before[j].shifted(offset),
            forall|j: int| i <= j < n ==> path@[j] == before[j],
        decreases n - i,
    {
        let e = path[i];
        assert(before[i as int].can_shift(offset));
        path.set(i, e.translated(offset));
        i = i + 1;
    }
    assert(path@ =~= path_shifted(before, offset));
    path
}

impl Transformation for Vec<PathElement> {
    open spec fn can_translate(&self, offset: PixelPoint) -> bool {
        path_can_shift(self@, offset)
    }

    open spec fn is_translation_of(&self, before: Vec<PathElement>, offset: PixelPoint) -> bool {
        self@ == path_shifted(before@, offset)
    }

    fn translate(&mut self, offset: PixelPoint) {
        let mut items: Vec<PathElement> = Vec::new();
        std::mem::swap(self, &mut items);
        *self = translated_path(items, offset);
    }
}

fn translated_primitive(p: Primitive, offset: PixelPoint) -> (r: Primitive)
    requires
        model_can_shift(p@, offset),
    ensures
        r@ == model_shifted(p@, offset),
    decreases p,
{
    proof {
        crate::primitive::lemma_children_view(p);
    }
    match p {
        Primitive::Line { color, thickness, start_point, end_point } => {
            let mut start_point = start_point;
            let mut end_point = end_point;
            start_point.translate(offset);
            end_point.translate(offset);
            Primitive::Line { color, thickness, start_point, end_point }
        },
        Primitive::Rectangle { color, rect } => {
            let mut rect = rect;
            rect.translate(offset);
            Primitive::Rectangle { color, rect }
        },
        Primitive::Image { resource_key, rect, uv } => {
            let mut rect = rect;
            rect.translate(offset);
            Primitive::Image { resource_key, rect, uv }
        },
        Primitive::Text { resource_key, size, color, position, clipping_rect, text } => {
            let mut position = position;
            let mut clipping_rect = clipping_rect;
            position.translate(offset);
            clipping_rect.translate(offset);
            Primitive::Text { resource_key, size, color, position, clipping_rect, text }
        },
        Primitive::Stroke { path, thickness, brush } => {
            Primitive::Stroke { path: translated_path(path, offset), thickness, brush }
        },
        Primitive::StrokeStyled { path, thickness, brush, style } => {
            Primitive::StrokeStyled { path: translated_path(path, offset), thickness, brush, style }
        },
        Primitive::Fill { path, brush } => {
            Primitive::Fill { path: translated_path(path, offset), brush }
        },
        Primitive::ClipRect { rect, primitives } => {
            let mut rect = rect;
            rect.translate(offset);
            assert forall|j: int| 0 <= j < primitives@.len() implies model_can_shift(
                #[trigger] prims_view(primitives@)[j],
                offset,
            ) by {
                assert(p.children() == primitives@);
                lemma_child_can_shift(p@, offset, j);
            }
            let primitives = translated_primitives(primitives, offset);
            let r = Primitive::ClipRect { rect, primitives };
            proof {
                crate::primitive::lemma_children_view(r);
            }
            assert(r@->ClipRect_primitives =~= model_shifted(p@, offset)->ClipRect_primitives);
            r
        },
        Primitive::ClipPath { path, primitives } => {
            let path = translated_path(path, offset);
            assert forall|j: int| 0 <= j < primitives@.len() implies model_can_shift(
                #[trigger] prims_view(primitives@)[j],
                offset,
            ) by {
                assert(p.children() == primitives@);
                lemma_child_can_shift(p@, offset, j);
            }
            let primitives = translated_primitives(primitives, offset);
            let r = Primitive::ClipPath { path, primitives };
            proof {
                crate::primitive::lemma_children_view(r);
            }
            assert(r@->ClipPath_primitives =~= model_shifted(p@, offset)->ClipPath_primitives);
            r
        },
        Primitive::Transform { transform, primitives } => {
            let transform = transform.post_translate(offset);
            Primitive::Transform { transform, primitives }
        },
        Primitive::Composite { color, primitives } => {
            assert forall|j: int| 0 <= j < primitives@.len() implies model_can_shift(
                #[trigger] prims_view(primitives@)[j],
                offset,
            ) by {
                assert(p.children() == primitives@);
                lemma_child_can_shift(p@, offset, j);
            }
            let primitives = translated_primitives(primitives, offset);
            let r = Primitive::Composite { color, primitives };
            proof {
                crate::primitive::lemma_children_view(r);
            }
            assert(r@->Composite_primitives =~= model_shifted(p@, offset)->Composite_primitives);
            r
        },
    }
}

fn translated_primitives(v: Vec<Primitive>, offset: PixelPoint) -> (r: Vec<Primitive>)
    requires
        models_can_shift(prims_view(v@), offset),
    ensures
        prims_view(r@) == models_shifted(prims_view(v@), offset),
    decreases v,
{
    let ghost before = v@;
    let mut items = v;
    let n = items.len();
    let mut i: usize = 0;
    while i < n
        invariant
            before == v@,
            n == before.len(),
            items@.len() == n,
            i <= n,
            models_can_shift(prims_view(before), offset),
            forall|j: int| 0 <= j < i ==> (#[trigger] items@[j])@ == model_shifted(before[j]@, offset),
            forall|j: int| i <= j < n ==> items@[j] == before[j],
        decreases n - i,
    {
        let mut p = Primitive::Composite {
            color: crate::units::Color { r: 0, g: 0, b: 0, a: 0 },
            primitives: Vec::new(),
        };
        items.set_and_swap(i, &mut p);
        assert(model_can_shift(prims_view(before)[i as int], offset));
        assert(decreases_to!(v => p));
        let mut q = translated_primitive(p, offset);
        items.set_and_swap(i, &mut q);
        i = i + 1;
    }
    assert(prims_view(items@) =~= models_shifted(prims_view(before), offset));
    items
}

impl Transformation for Vec<Primitive> {
    open spec fn can_translate(&self, offset: PixelPoint) -> bool {
        models_can_shift(prims_view(self@), offset)
    }

    open spec fn is_translation_of(&self, before: Vec<Primitive>, offset: PixelPoint) -> bool {
        prims_view(self@) == models_shifted(prims_view(before@), offset)
    }

    fn translate(&mut self, offset: PixelPoint) {
        let mut items: Vec<Primitive> = Vec::new();
        std::mem::swap(self, &mut items);
        *self = translated_primitives(items, offset);
    }
}

proof fn lemma_path_round_trip(path: Seq<PathElement>, o: PixelPoint)
    requires
        path_can_shift(path, o),
        o.x > i32::MIN,
        o.y > i32::MIN,
    ensures
        path_can_shift(path_shifted(path, o), negated(o)),
        path_shifted(path_shifted(path, o), negated(o)) == path,
{
    let once = path_shifted(path, o);
    assert forall|i: int| 0 <= i < once.len() implies (#[trigger] once[i]).can_shift(negated(o))
        && once[i].shifted(negated(o)) == path[i] by {
        let e = path[i];
        assert(e.can_shift(o));
        match e {
            PathElement::MoveTo(p) => {},
            PathElement::LineTo(p) => {},
            PathElement::BezierTo(c1, c2, p) => {},
            _ => {},
        }
    }
    assert(path_shifted(once, negated(o)) =~= path);
}

proof fn lemma_model_round_trip(m: PrimitiveModel, o: PixelPoint)
    requires
        model_can_shift(m, o),
        o.x > i32::MIN,
        o.y > i32::MIN,
    ensures
        model_can_shift(model_shifted(m, o), negated(o)),
        model_shifted(model_shifted(m, o), negated(o)) == m,
    decreases m,
{
    match m {
        PrimitiveModel::Stroke { path, .. } => lemma_path_round_trip(path, o),
        PrimitiveModel::StrokeStyled { path, .. } => lemma_path_round_trip(path, o),
        PrimitiveModel::Fill { path, .. } => lemma_path_round_trip(path, o),
        PrimitiveModel::ClipRect { rect, primitives } => {
            lemma_models_round_trip(primitives, o);
            let once = model_shifted(m, o);
            assert(once->ClipRect_primitives =~= models_shifted(primitives, o));
            let back = model_shifted(once, negated(o));
            assert(back->ClipRect_primitives =~= primitives);
        },
        PrimitiveModel::ClipPath { path, primitives } => {
            lemma_path_round_trip(path, o);
            lemma_models_round_trip(primitives, o);
            let once = model_shifted(m, o);
            assert(once->ClipPath_primitives =~= models_shifted(primitives, o));
            let back = model_shifted(once, negated(o));
            assert(back->ClipPath_primitives =~= primitives);
        },
        PrimitiveModel::Composite { color, primitives } => {
            lemma_models_round_trip(primitives, o);
            let once = model_shifted(m, o);
            assert(once->Composite_primitives =~= models_shifted(primitives, o));
            let back = model_shifted(once, negated(o));
            assert(back->Composite_primitives =~= primitives);
        },
        _ => {},
    }
}

proof fn lemma_models_round_trip(s: Seq<PrimitiveModel>, o: PixelPoint)
    requires
        forall|i: int| 0 <= i < s.len() ==> model_can_shift(#[trigger] s[i], o),
        o.x > i32::MIN,
        o.y > i32::MIN,
    ensures
        models_can_shift(models_shifted(s, o), negated(o)),
        models_shifted(models_shifted(s, o), negated(o)) == s,
    decreases s,
{
    let once = models_shifted(s, o);
    assert forall|i: int| 0 <= i < s.len() implies model_can_shift(#[trigger] once[i], negated(o))
        && model_shifted(once[i], negated(o)) == s[i] by {
        lemma_model_round_trip(s[i], o);
    }
    assert(models_shifted(once, negated(o)) =~= s);
}

/// Translating a tree by `offset` and then by the opposite offset restores every
/// coordinate exactly, in every kind of node and in every nested subtree.
pub proof fn lemma_translate_round_trip(tree: Seq<PrimitiveModel>, offset: PixelPoint)
    requires
        models_can_shift(tree, offset),
        offset.x > i32::MIN,
        offset.y > i32::MIN,
    ensures
        models_can_shift(models_shifted(tree, offset), negated(offset)),
        models_shifted(models_shifted(tree, offset), negated(offset)) == tree,
{
    lemma_models_round_trip(tree, offset);
}

} // verus!
