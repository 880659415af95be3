use vstd::prelude::*;

use crate::expand::{expand_fill, fill_fans, stroke_joins, stroke_joins_exec, Triangle};
use crate::path::{flatten, flattened, subpaths_view};
use crate::primitive::{
    lemma_children_view, prims_view, Brush, LineJoin, PathElement, Primitive, PrimitiveModel,
    StrokeStyle,
};
use crate::units::{Color, PixelPoint, PixelRect, PixelTransform, TexCoords};

verus! {

/// A flattened sub-path ready for stroking, with the join to draw at each joint.
#[derive(Debug, PartialEq)]
pub struct StrokePath {
    pub points: Vec<PixelPoint>,
    pub closed: bool,
    pub joins: Vec<LineJoin>,
}

pub struct StrokePathModel {
    pub points: Seq<PixelPoint>,
    pub closed: bool,
    pub joins: Seq<LineJoin>,
}

impl View for StrokePath {
    type V = StrokePathModel;

    open spec fn view(&self) -> StrokePathModel {
        StrokePathModel { points: self.points@, closed: self.closed, joins: self.joins@ }
    }
}

/// One call for the device. Save and restore enclose a change of clip or
/// transform; a layer is begun on a fresh transparent target the size of the
/// current one, with an identity transform, and ended by drawing it into the
/// target below tinted by its color.
#[allow(inconsistent_fields)]
#[derive(Debug, PartialEq)]
pub enum DrawCommand {
    Line { color: Color, thickness: i32, start_point: PixelPoint, end_point: PixelPoint },
    Rect { color: Color, rect: PixelRect },
    Image { resource_key: u32, rect: PixelRect, uv: TexCoords },
    Text {
        resource_key: String,
        size: u16,
        color: Color,
        position: PixelPoint,
        clipping_rect: PixelRect,
        text: String,
    },
    Stroke { paths: Vec<StrokePath>, thickness: i32, brush: Brush, style: StrokeStyle },
    Fill { triangles: Vec<Triangle>, brush: Brush },
    SaveState,
    RestoreState,
    SetClipRect { rect: PixelRect },
    SetClipPath { triangles: Vec<Triangle> },
    Transform { transform: PixelTransform },
    BeginLayer,
    EndLayer { color: Color },
}

#[allow(inconsistent_fields)]
pub enum CommandModel {
    Line { color: Color, thickness: i32, start_point: PixelPoint, end_point: PixelPoint },
    Rect { color: Color, rect: PixelRect },
    Image { resource_key: u32, rect: PixelRect, uv: TexCoords },
    Text {
        resource_key: Seq<char>,
        size: u16,
        color: Color,
        position: PixelPoint,
        clipping_rect: PixelRect,
        text: Seq<char>,
    },
    Stroke { paths: Seq<StrokePathModel>, thickness: i32, brush: Brush, style: StrokeStyle },
    Fill { triangles: Seq<Triangle>, brush: Brush },
    SaveState,
    RestoreState,
    SetClipRect { rect: PixelRect },
    SetClipPath { triangles: Seq<Triangle> },
    Transform { transform: PixelTransform },
    BeginLayer,
    EndLayer { color: Color },
}

impl View for DrawCommand {
    type V = CommandModel;

    open spec fn view(&self) -> CommandModel {
        match self {
            DrawCommand::Line { color, thickness, start_point, end_point } => CommandModel::Line {
                color: *color,
                thickness: *thickness,
                start_point: *start_point,
                end_point: *end_point,
            },
            DrawCommand::Rect { color, rect } => CommandModel::Rect { color: *color, rect: *rect },
            DrawCommand::Image { resource_key, rect, uv } => CommandModel::Image {
                resource_key: *resource_key,
                rect: *rect,
                uv: *uv,
            },
            DrawCommand::Text { resource_key, size, color, position, clipping_rect, text } =>
                CommandModel::Text {
                resource_key: resource_key@,
                size: *size,
                color: *color,
                position: *position,
                clipping_rect: *clipping_rect,
                text: text@,
            },
            DrawCommand::Stroke { paths, thickness, brush, style } => CommandModel::Stroke {
                paths: Seq::new(paths@.len(), |i: int| paths@[i]@),
                thickness: *thickness,
                brush: *brush,
                style: *style,
            },
            DrawCommand::Fill { triangles, brush } => CommandModel::Fill {
                triangles: triangles@,
                brush: *brush,
            },
            DrawCommand::SaveState => CommandModel::SaveState,
            DrawCommand::RestoreState => CommandModel::RestoreState,
            DrawCommand::SetClipRect { rect } => CommandModel::SetClipRect { rect: *rect },
            DrawCommand::SetClipPath { triangles } => CommandModel::SetClipPath {
                triangles: triangles@,
            },
            DrawCommand::Transform { transform } => CommandModel::Transform { transform: *transform },
            DrawCommand::BeginLayer => CommandModel::BeginLayer,
            DrawCommand::EndLayer { color } => CommandModel::EndLayer { color: *color },
        }
    }
}

pub open spec fn commands_view(s: Seq<DrawCommand>) -> Seq<CommandModel> {
    Seq::new(s.len(), |i: int| s[i]@)
}

/// The flattened sub-paths of `path` with their joins.
#[verifier::opaque]
pub open spec fn stroke_geometry(path: Seq<PathElement>, style: StrokeStyle, tol: int) -> Seq<
    StrokePathModel,
> {
    let subs = flattened(path, tol);
    Seq::new(
        subs.len(),
        |i: int|
            StrokePathModel {
                points: subs[i].points,
                closed: subs[i].closed,
                joins: stroke_joins(subs[i].points, subs[i].closed, style.line_join, style.miter_limit),
            },
    )
}

/// The triangles that fill `path`.
#[verifier::opaque]
pub open spec fn fill_geometry(path: Seq<PathElement>, tol: int) -> Seq<Triangle> {
    fill_fans(flattened(path, tol))
}

/// The commands that draw one primitive, with curves flattened to tolerance `tol`.
pub open spec fn commands_of(m: PrimitiveModel, tol: int) -> Seq<CommandModel>
    decreases m,
{
    match m {
        PrimitiveModel::Line { color, thickness, start_point, end_point } => seq![
            CommandModel::Line { color, thickness, start_point, end_point },
        ],
        PrimitiveModel::Rectangle { color, rect } => seq![CommandModel::Rect { color, rect }],
        PrimitiveModel::Image { resource_key, rect, uv } => seq![
            CommandModel::Image { resource_key, rect, uv },
        ],
        PrimitiveModel::Text { resource_key, size, color, position, clipping_rect, text } => seq![
            CommandModel::Text { resource_key, size, color, position, clipping_rect, text },
        ],
        PrimitiveModel::Stroke { path, thickness, brush } => seq![
            CommandModel::Stroke {
                paths: stroke_geometry(path, StrokeStyle::default_spec(), tol),
                thickness,
                brush,
                style: StrokeStyle::default_spec(),
            },
        ],
        PrimitiveModel::StrokeStyled { path, thickness, brush, style } => seq![
            CommandModel::Stroke { paths: stroke_geometry(path, style, tol), thickness, brush, style },
        ],
        PrimitiveModel::Fill { path, brush } => seq![
            CommandModel::Fill { triangles: fill_geometry(path, tol), brush },
        ],
        PrimitiveModel::ClipRect { rect, primitives } => seq![
            CommandModel::SaveState,
            CommandModel::SetClipRect { rect },
        ] + commands_of_all(primitives, tol) + seq![CommandModel::RestoreState],
        PrimitiveModel::ClipPath { path, primitives } => seq![
            CommandModel::SaveState,
            CommandModel::SetClipPath { triangles: fill_geometry(path, tol) },
        ] + commands_of_all(primitives, tol) + seq![CommandModel::RestoreState],
        PrimitiveModel::Transform { transform, primitives } => seq![
            CommandModel::SaveState,
            CommandModel::Transform { transform },
        ] + commands_of_all(primitives, tol) + seq![CommandModel::RestoreState],
        PrimitiveModel::Composite { color, primitives } => seq![CommandModel::BeginLayer]
            + commands_of_all(primitives, tol) + seq![CommandModel::EndLayer { color }],
    }
}

/// The commands that draw a sequence of primitives, in order.
pub open spec fn commands_of_all(s: Seq<PrimitiveModel>, tol: int) -> Seq<CommandModel>
    decreases s,
{
    if s.len() == 0 {
        Seq::empty()
    } else {
        commands_of_all(s.subrange(0, s.len() - 1), tol) + commands_of(s[s.len() - 1], tol)
    }
}

/// Clip, transform and composite nodes, which hold children.
pub open spec fn is_node(p: Primitive) -> bool {
    p is ClipRect || p is ClipPath || p is Transform || p is Composite
}

/// The default flattening tolerance, in logical units along each axis.
pub const DEFAULT_TOLERANCE: u32 = 1;

/// Walks primitive trees and turns them into device commands.
pub struct Renderer {
    pub tolerance: u32,
}

impl Renderer {
    pub fn new() -> (r: Renderer)
        ensures
            r.tolerance == DEFAULT_TOLERANCE,
    {
        Renderer { tolerance: DEFAULT_TOLERANCE }
    }

    /// A renderer that flattens curves to within `tolerance` along each axis.
    pub fn with_tolerance(tolerance: u32) -> (r: Renderer)
        ensures
            r.tolerance == tolerance,
    {
        Renderer { tolerance }
    }

    /// The flattened sub-paths of `path` with the joins that `style` asks for.
    pub fn get_stroke_path(&self, path: &Vec<PathElement>, style: StrokeStyle) -> (r: Vec<StrokePath>)
        ensures
            Seq::new(r@.len(), |i: int| r@[i]@) == stroke_geometry(path@, style, self.tolerance as int),
    {
        reveal(stroke_geometry);
        let subs = flatten(path, self.tolerance);
        let mut out: Vec<StrokePath> = Vec::with_capacity(subs.len());
        let mut i: usize = 0;
        while i < subs.len()
            invariant
                i <= subs@.len(),
                subpaths_view(subs@) == flattened(path@, self.tolerance as int),
                out@.len() == i,
                forall|j: int| 0 <= j < i ==> (#[trigger] out@[j])@ == stroke_geometry(
                    path@,
                    style,
                    self.tolerance as int,
                )[j],
            decreases subs@.len() - i,
        {
            proof {
                reveal(stroke_geometry);
            }
            let sp = &subs[i];
            let joins = stroke_joins_exec(&sp.points, sp.closed, style.line_join, style.miter_limit);
            let points = sp.points.clone();
            assert(points@ =~= sp.points@);
            assert(subpaths_view(subs@)[i as int] == sp@);
            out.push(StrokePath { points, closed: sp.closed, joins });
            i = i + 1;
        }
        assert(Seq::new(out@.len(), |i: int| out@[i]@) =~= stroke_geometry(path@, style, self.tolerance as int));
        out
    }

    /// The triangles that fill `path`.
    pub fn get_fill_path(&self, path: &Vec<PathElement>) -> (r: Vec<Triangle>)
        ensures
            r@ == fill_geometry(path@, self.tolerance as int),
    {
        reveal(fill_geometry);
        let subs = flatten(path, self.tolerance);
        expand_fill(&subs)
    }

    fn push_leaf(&self, out: &mut Vec<DrawCommand>, p: &Primitive)
        requires
            !is_node(*p),
        ensures
            commands_view(final(out)@) == commands_view(old(out)@) + commands_of(p@, self.tolerance as int),
    {
        match p {
            Primitive::Line { color, thickness, start_point, end_point } => {
                push_command(out, DrawCommand::Line {
                    color: *color,
                    thickness: *thickness,
                    start_point: *start_point,
                    end_point: *end_point,
                });
            },
            Primitive::Rectangle { color, rect } => {
                push_command(out, DrawCommand::Rect { color: *color, rect: *rect });
            },
            Primitive::Image { resource_key, rect, uv } => {
                push_command(out, DrawCommand::Image { resource_key: *resource_key, rect: *rect, uv: *uv });
            },
            Primitive::Text { resource_key, size, color, position, clipping_rect, text } => {
                push_command(out, DrawCommand::Text {
                    resource_key: resource_key.clone(),
                    size: *size,
                    color: *color,
                    position: *position,
                    clipping_rect: *clipping_rect,
                    text: text.clone(),
                });
            },
            Primitive::Stroke { path, thickness, brush } => {
                let style = StrokeStyle::default_style();
                let paths = self.get_stroke_path(path, style);
                push_command(out, DrawCommand::Stroke { paths, thickness: *thickness, brush: *brush, style });
            },
            Primitive::StrokeStyled { path, thickness, brush, style } => {
                let paths = self.get_stroke_path(path, *style);
                push_command(out, DrawCommand::Stroke {
                    paths,
                    thickness: *thickness,
                    brush: *brush,
                    style: *style,
                });
            },
            Primitive::Fill { path, brush } => {
                let triangles = self.get_fill_path(path);
                push_command(out, DrawCommand::Fill { triangles, brush: *brush });
            },
            _ => {},
        }
    }

    #[verifier::spinoff_prover]
    fn push_primitive(&self, out: &mut Vec<DrawCommand>, p: &Primitive)
        ensures
            commands_view(final(out)@) == commands_view(old(out)@) + commands_of(p@, self.tolerance as int),
        decreases p,
    {
        let node = match p {
            Primitive::ClipRect { .. } | Primitive::ClipPath { .. } | Primitive::Transform { .. }
            | Primitive::Composite { .. } => true,
            _ => false,
        };
        if !node {
            self.push_leaf(out, p);
            return;
        }
        proof {
            lemma_children_view(*p);
        }
        let ghost before = commands_view(out@);
        let ghost tol = self.tolerance as int;
        match p {
            Primitive::ClipRect { rect, primitives } => {
                push_command(out, DrawCommand::SaveState);
                push_command(out, DrawCommand::SetClipRect { rect: *rect });
                self.push_all(out, primitives);
                push_command(out, DrawCommand::RestoreState);
                assert(commands_view(out@) =~= before + commands_of(p@, tol));
            },
            Primitive::ClipPath { path, primitives } => {
                push_command(out, DrawCommand::SaveState);
                let triangles = self.get_fill_path(path);
                push_command(out, DrawCommand::SetClipPath { triangles });
                self.push_all(out, primitives);
                push_command(out, DrawCommand::RestoreState);
                assert(commands_view(out@) =~= before + commands_of(p@, tol));
            },
            Primitive::Transform { transform, primitives } => {
                push_command(out, DrawCommand::SaveState);
                push_command(out, DrawCommand::Transform { transform: *transform });
                self.push_all(out, primitives);
                push_command(out, DrawCommand::RestoreState);
                assert(commands_view(out@) =~= before + commands_of(p@, tol));
            },
            Primitive::Composite { color, primitives } => {
                push_command(out, DrawCommand::BeginLayer);
                self.push_all(out, primitives);
                push_command(out, DrawCommand::EndLayer { color: *color });
                assert(commands_view(out@) =~= before + commands_of(p@, tol));
            },
            _ => {},
        }
    }

    fn push_all(&self, out: &mut Vec<DrawCommand>, prims: &Vec<Primitive>)
        ensures
            commands_view(final(out)@) == commands_view(old(out)@) + commands_of_all(
                prims_view(prims@),
                self.tolerance as int,
            ),
        decreases prims,
    {
        let ghost before = commands_view(out@);
        let mut i: usize = 0;
        while i < prims.len()
            invariant
                i <= prims@.len(),
                commands_view(out@) == before + commands_of_all(
                    prims_view(prims@).subrange(0, i as int),
                    self.tolerance as int,
                ),
            decreases prims@.len() - i,
        {
            assert(decreases_to!(prims => prims@[i as int]));
            let ghost mid = commands_view(out@);
            let p = &prims[i];
            assert(*p == prims@[i as int]);
            self.push_primitive(out, p);
            assert(commands_view(out@) == mid + commands_of(p@, self.tolerance as int));
            assert(p@ == prims_view(prims@)[i as int]);
            proof {
                let whole = prims_view(prims@);
                let next = whole.subrange(0, i + 1);
                assert(next.subrange(0, i as int) =~= whole.subrange(0, i as int));
                assert(next[i as int] == p@);
                assert(commands_of_all(next, self.tolerance as int) == commands_of_all(whole.subrange(0, i as int), self.tolerance as int)
                    + commands_of(p@, self.tolerance as int));
                assert(mid == before + commands_of_all(whole.subrange(0, i as int), self.tolerance as int));
                assert(commands_view(out@) =~= before + commands_of_all(next, self.tolerance as int));
            }
            i = i + 1;
        }
        assert(prims_view(prims@).subrange(0, prims@.len() as int) =~= prims_view(prims@));
    }

    /// The device commands that draw `primitives`, in order.
    pub fn draw(&mut self, primitives: &Vec<Primitive>) -> (r: Vec<DrawCommand>)
        ensures
            commands_view(r@) == commands_of_all(prims_view(primitives@), old(self).tolerance as int),
            *final(self) == *old(self),
    {
        let mut out: Vec<DrawCommand> = Vec::new();
        assert(commands_view(out@) =~= Seq::<CommandModel>::empty());
        self.push_all(&mut out, primitives);
        assert(commands_view(out@) =~= commands_of_all(prims_view(primitives@), self.tolerance as int));
        out
    }
}

fn push_command(out: &mut Vec<DrawCommand>, c: DrawCommand)
    ensures
        commands_view(final(out)@) == commands_view(old(out)@).push(c@),
{
    let ghost before = commands_view(out@);
    let ghost cm = c@;
    out.push(c);
    assert(commands_view(out@) =~= before.push(cm));
}

/// What a command does to the depth of saved states (`layer` false) or of open
/// layers (`layer` true).
pub open spec fn delta(c: CommandModel, layer: bool) -> int {
    match c {
        CommandModel::SaveState => if layer { 0 } else { 1 },
        CommandModel::RestoreState => if layer { 0 } else { -1 },
        CommandModel::BeginLayer => if layer { 1 } else { 0 },
        CommandModel::EndLayer { .. } => if layer { -1 } else { 0 },
        _ => 0,
    }
}

/// The depth of saved states, or of open layers, after the commands `s`.
pub open spec fn depth(s: Seq<CommandModel>, layer: bool) -> int
    decreases s.len(),
{
    if s.len() == 0 {
        0
    } else {
        depth(s.drop_last(), layer) + delta(s.last(), layer)
    }
}

pub open spec fn nested_in(s: Seq<CommandModel>, layer: bool) -> bool {
    &&& depth(s, layer) == 0
    &&& forall|k: int| 0 <= k <= s.len() ==> depth(#[trigger] s.subrange(0, k), layer) >= 0
}

/// No restore comes before its save, no layer ends before it begins, and all are
/// closed at the end.
pub open spec fn well_nested(s: Seq<CommandModel>) -> bool {
    nested_in(s, false) && nested_in(s, true)
}

proof fn lemma_depth_add(a: Seq<CommandModel>, b: Seq<CommandModel>, layer: bool)
    ensures
        depth(a + b, layer) == depth(a, layer) + depth(b, layer),
    decreases b.len(),
{
    if b.len() == 0 {
        assert(a + b =~= a);
    } else {
        assert((a + b).drop_last() =~= a + b.drop_last());
        lemma_depth_add(a, b.drop_last(), layer);
    }
}

proof fn lemma_prefix_depth(a: Seq<CommandModel>, b: Seq<CommandModel>, k: int, layer: bool)
    requires
        a.len() <= k <= a.len() + b.len(),
    ensures
        depth((a + b).subrange(0, k), layer) == depth(a, layer) + depth(
            b.subrange(0, k - a.len()),
            layer,
        ),
{
    assert((a + b).subrange(0, k) =~= a + b.subrange(0, k - a.len()));
    lemma_depth_add(a, b.subrange(0, k - a.len()), layer);
}

proof fn lemma_nested_concat(a: Seq<CommandModel>, b: Seq<CommandModel>, layer: bool)
    requires
        nested_in(a, layer),
        nested_in(b, layer),
    ensures
        nested_in(a + b, layer),
{
    lemma_depth_add(a, b, layer);
    assert forall|k: int| 0 <= k <= (a + b).len() implies depth(
        #[trigger] (a + b).subrange(0, k),
        layer,
    ) >= 0 by {
        if k <= a.len() {
            assert((a + b).subrange(0, k) =~= a.subrange(0, k));
        } else {
            lemma_prefix_depth(a, b, k, layer);
            assert(depth(b.subrange(0, k - a.len()), layer) >= 0);
        }
    }
}

/// `pre + c + post` is nested when `c` is and `pre` opens what `post` closes.
proof fn lemma_nested_wrap(
    pre: Seq<CommandModel>,
    c: Seq<CommandModel>,
    post: Seq<CommandModel>,
    layer: bool,
)
    requires
        nested_in(c, layer),
        depth(pre, layer) >= 0,
        depth(pre, layer) + depth(post, layer) == 0,
        forall|k: int| 0 <= k <= pre.len() ==> depth(#[trigger] pre.subrange(0, k), layer) >= 0,
        post.len() == 1,
    ensures
        nested_in(pre + c + post, layer),
{
    let pc = pre + c;
    let whole = pc + post;
    lemma_depth_add(pre, c, layer);
    lemma_depth_add(pc, post, layer);
    assert forall|k: int| 0 <= k <= whole.len() implies depth(#[trigger] whole.subrange(0, k), layer)
        >= 0 by {
        if k <= pre.len() {
            assert(whole.subrange(0, k) =~= pre.subrange(0, k));
        } else if k <= pc.len() {
            assert(whole.subrange(0, k) =~= pc.subrange(0, k));
            lemma_prefix_depth(pre, c, k, layer);
            assert(depth(c.subrange(0, k - pre.len()), layer) >= 0);
        } else {
            assert(k == whole.len());
            assert(whole.subrange(0, k) =~= whole);
        }
    }
}

proof fn lemma_single(s: Seq<CommandModel>, x: CommandModel, layer: bool)
    requires
        s == seq![x],
    ensures
        depth(s, layer) == delta(x, layer),
        depth(s.subrange(0, 0), layer) == 0,
        depth(s.subrange(0, 1), layer) == delta(x, layer),
{
    reveal_with_fuel(depth, 2);
    assert(s.drop_last() =~= Seq::<CommandModel>::empty());
    assert(s.subrange(0, 0) =~= Seq::<CommandModel>::empty());
    assert(s.subrange(0, 1) =~= s);
}

proof fn lemma_pair_prefixes(s: Seq<CommandModel>, x: CommandModel, y: CommandModel, layer: bool)
    requires
        s == seq![x, y],
        delta(x, layer) >= 0,
        delta(x, layer) + delta(y, layer) >= 0,
    ensures
        forall|k: int| 0 <= k <= 2 ==> depth(#[trigger] s.subrange(0, k), layer) >= 0,
        depth(s, layer) == delta(x, layer) + delta(y, layer),
{
    lemma_single(seq![x], x, layer);
    assert(s.drop_last() =~= seq![x]);
    assert(s.subrange(0, 0) =~= Seq::<CommandModel>::empty());
    assert(s.subrange(0, 1) =~= seq![x]);
    assert(s.subrange(0, 2) =~= s);
    assert forall|k: int| 0 <= k <= 2 implies depth(#[trigger] s.subrange(0, k), layer) >= 0 by {
        if k == 0 {
        } else if k == 1 {
        } else {
        }
    }
}

#[verifier::spinoff_prover]
proof fn lemma_commands_nested(m: PrimitiveModel, tol: int)
    ensures
        well_nested(commands_of(m, tol)),
    decreases m,
{
    let out = commands_of(m, tol);
    match m {
        PrimitiveModel::ClipRect { rect, primitives } => {
            lemma_all_nested(primitives, tol);
            let second = CommandModel::SetClipRect { rect };
            lemma_wrapped_pair(second, commands_of_all(primitives, tol));
        },
        PrimitiveModel::ClipPath { path, primitives } => {
            lemma_all_nested(primitives, tol);
            let second = CommandModel::SetClipPath { triangles: fill_geometry(path, tol) };
            lemma_wrapped_pair(second, commands_of_all(primitives, tol));
        },
        PrimitiveModel::Transform { transform, primitives } => {
            lemma_all_nested(primitives, tol);
            let second = CommandModel::Transform { transform };
            lemma_wrapped_pair(second, commands_of_all(primitives, tol));
        },
        PrimitiveModel::Composite { color, primitives } => {
            lemma_all_nested(primitives, tol);
            let c = commands_of_all(primitives, tol);
            let pre = seq![CommandModel::BeginLayer];
            let post = seq![CommandModel::EndLayer { color }];
            lemma_single(pre, CommandModel::BeginLayer, false);
            lemma_single(pre, CommandModel::BeginLayer, true);
            lemma_single(post, CommandModel::EndLayer { color }, false);
            lemma_single(post, CommandModel::EndLayer { color }, true);
            assert forall|k: int| 0 <= k <= pre.len() implies depth(#[trigger] pre.subrange(0, k), false) >= 0
                && depth(pre.subrange(0, k), true) >= 0 by {
                if k == 0 {
                } else {
                }
            }
            lemma_nested_wrap(pre, c, post, false);
            lemma_nested_wrap(pre, c, post, true);
        },
        _ => {
            assert(out.len() == 1);
            lemma_single(out, out[0], false);
            lemma_single(out, out[0], true);
            assert forall|k: int| 0 <= k <= out.len() implies depth(#[trigger] out.subrange(0, k), false) >= 0
                && depth(out.subrange(0, k), true) >= 0 by {
                if k == 0 {
                } else {
                }
            }
        },
    }
}

/// A state saved, `second` applied, `c` drawn, the state restored.
proof fn lemma_wrapped_pair(second: CommandModel, c: Seq<CommandModel>)
    requires
        well_nested(c),
        delta(second, false) == 0,
        delta(second, true) == 0,
    ensures
        well_nested(seq![CommandModel::SaveState, second] + c + seq![CommandModel::RestoreState]),
{
    let pre = seq![CommandModel::SaveState, second];
    let post = seq![CommandModel::RestoreState];
    lemma_pair_prefixes(pre, CommandModel::SaveState, second, false);
    lemma_pair_prefixes(pre, CommandModel::SaveState, second, true);
    lemma_single(post, CommandModel::RestoreState, false);
    lemma_single(post, CommandModel::RestoreState, true);
    lemma_nested_wrap(pre, c, post, false);
    lemma_nested_wrap(pre, c, post, true);
}

/// However the primitives nest, the commands that draw them restore every state
/// they save and end every layer they begin, never before it was opened.
pub proof fn lemma_all_nested(s: Seq<PrimitiveModel>, tol: int)
    ensures
        well_nested(commands_of_all(s, tol)),
    decreases s,
{
    if s.len() == 0 {
        let e = commands_of_all(s, tol);
        assert(e.len() == 0);
        assert forall|k: int| 0 <= k <= e.len() implies depth(#[trigger] e.subrange(0, k), false) >= 0
            && depth(e.subrange(0, k), true) >= 0 by {
            assert(e.subrange(0, k) =~= Seq::<CommandModel>::empty());
        }
    } else {
        lemma_all_nested(s.subrange(0, s.len() - 1), tol);
        lemma_commands_nested(s[s.len() - 1], tol);
        lemma_nested_concat(commands_of_all(s.subrange(0, s.len() - 1), tol), commands_of(s[s.len() - 1], tol), false);
        lemma_nested_concat(commands_of_all(s.subrange(0, s.len() - 1), tol), commands_of(s[s.len() - 1], tol), true);
    }
}

/// No prefix of the first `n` commands closes a state or a layer that it did not open.
pub open spec fn prefix_nested(s: Seq<CommandModel>, n: int) -> bool {
    forall|k: int|
        0 <= k <= n ==> depth(#[trigger] s.subrange(0, k), false) >= 0 && depth(
            s.subrange(0, k),
            true,
        ) >= 0
}

/// The saved states and the layers still open after the first `upto` commands:
/// what has to be restored and ended when the device fails at that point.
/// `None` when some command among them closes what was never opened.
pub fn pending_after(cmds: &Vec<DrawCommand>, upto: usize) -> (r: Option<(usize, usize)>)
    requires
        upto <= cmds@.len(),
    ensures
        r is Some <==> prefix_nested(commands_view(cmds@), upto as int),
        r is Some ==> (r->0).0 == depth(commands_view(cmds@).subrange(0, upto as int), false),
        r is Some ==> (r->0).1 == depth(commands_view(cmds@).subrange(0, upto as int), true),
{
    let ghost all = commands_view(cmds@);
    let mut saves: usize = 0;
    let mut layers: usize = 0;
    let mut i: usize = 0;
    assert(all.subrange(0, 0) =~= Seq::<CommandModel>::empty());
    while i < upto
        invariant
            upto <= cmds@.len(),
            all == commands_view(cmds@),
            i <= upto,
            saves == depth(all.subrange(0, i as int), false),
            layers == depth(all.subrange(0, i as int), true),
            saves <= i,
            layers <= i,
            prefix_nested(all, i as int),
        decreases upto - i,
    {
        let ghost next = all.subrange(0, i + 1);
        assert(next.drop_last() =~= all.subrange(0, i as int));
        assert(cmds@[i as int]@ == all[i as int]);
        match &cmds[i] {
            DrawCommand::SaveState => saves = saves + 1,
            DrawCommand::RestoreState => {
                if saves == 0 {
                    assert(depth(next, false) < 0);
                    return None;
                }
                saves = saves - 1;
            },
            DrawCommand::BeginLayer => layers = layers + 1,
            DrawCommand::EndLayer { .. } => {
                if layers == 0 {
                    assert(depth(next, true) < 0);
                    return None;
                }
                layers = layers - 1;
            },
            _ => {},
        }
        assert forall|k: int| 0 <= k <= i + 1 implies depth(#[trigger] all.subrange(0, k), false) >= 0
            && depth(all.subrange(0, k), true) >= 0 by {
            if k == i + 1 {
                assert(all.subrange(0, k) == next);
            }
        }
        i = i + 1;
    }
    Some((saves, layers))
}

/// A well nested command list passes the prefix test at every length.
pub proof fn lemma_nested_prefixes(s: Seq<CommandModel>, n: int)
    requires
        well_nested(s),
        0 <= n <= s.len(),
    ensures
        prefix_nested(s, n),
{
}

} // verus!
