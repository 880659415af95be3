use vstd::prelude::*;

use crate::primitive::PathElement;
use crate::units::{max_int, min_int, PixelPoint, PixelRect};

verus! {

/// Radii below this are treated as square corners.
pub const RADIUS_EPSILON: i32 = 1;

/// `1 - kappa` for the four-segment circle approximation (kappa = 0.5522847493),
/// as `KAPPA_INSET_NUM / KAPPA_INSET_DEN`.
pub const KAPPA_INSET_NUM: i64 = 44771525;

pub const KAPPA_INSET_DEN: i64 = 100000000;

pub open spec fn pt(x: int, y: int) -> PixelPoint {
    PixelPoint { x: x as i32, y: y as i32 }
}

/// The closed outline of `rect`: down the left side, along the bottom, up the
/// right side, back along the top.
pub open spec fn rect_outline(rect: PixelRect) -> Seq<PathElement> {
    let (x, y, w, h) = (rect.left(), rect.top(), rect.size.width as int, rect.size.height as int);
    seq![
        PathElement::MoveTo(pt(x, y)),
        PathElement::LineTo(pt(x, y + h)),
        PathElement::LineTo(pt(x + w, y + h)),
        PathElement::LineTo(pt(x + w, y)),
        PathElement::ClosePath,
    ]
}

pub fn rect_path(rect: PixelRect) -> (r: Vec<PathElement>)
    requires
        rect.wf(),
    ensures
        r@ == rect_outline(rect),
{
    let x = rect.origin.x;
    let y = rect.origin.y;
    let x2 = x + rect.size.width;
    let y2 = y + rect.size.height;
    let mut res: Vec<PathElement> = Vec::with_capacity(5);
    res.push(PathElement::MoveTo(PixelPoint::new(x, y)));
    res.push(PathElement::LineTo(PixelPoint::new(x, y2)));
    res.push(PathElement::LineTo(PixelPoint::new(x2, y2)));
    res.push(PathElement::LineTo(PixelPoint::new(x2, y)));
    res.push(PathElement::ClosePath);
    assert(res@ =~= rect_outline(rect));
    res
}

pub open spec fn abs(v: int) -> int {
    if v >= 0 { v } else { -v }
}

pub open spec fn sign(v: int) -> int {
    if v > 0 { 1 } else if v < 0 { -1 } else { 0 }
}

/// A requested radius held to `[0, half]` and pointed along an extent of sign `s`.
pub open spec fn corner_radius(requested: int, half: int, s: int) -> int {
    let c = if requested < 0 { 0 } else if requested > half { half } else { requested };
    c * s
}

/// How far a Bezier control point sits from the corner end of an arc of radius `r`.
#[verifier::opaque]
pub open spec fn inset(r: int) -> int {
    if r >= 0 {
        r * (KAPPA_INSET_NUM as int) / (KAPPA_INSET_DEN as int)
    } else {
        -((-r) * (KAPPA_INSET_NUM as int) / (KAPPA_INSET_DEN as int))
    }
}

/// The effective radii of the four corners, each along x and along y.
#[derive(Clone, Copy)]
pub struct CornerRadii {
    pub xlt: i32,
    pub ylt: i32,
    pub xrt: i32,
    pub yrt: i32,
    pub xrb: i32,
    pub yrb: i32,
    pub xlb: i32,
    pub ylb: i32,
}

pub open spec fn radii_of(rect: PixelRect, lt: i32, rt: i32, rb: i32, lb: i32) -> CornerRadii {
    let (w, h) = (rect.size.width as int, rect.size.height as int);
    let (hw, hh, sw, sh) = (abs(w) / 2, abs(h) / 2, sign(w), sign(h));
    CornerRadii {
        xlt: corner_radius(lt as int, hw, sw) as i32,
        ylt: corner_radius(lt as int, hh, sh) as i32,
        xrt: corner_radius(rt as int, hw, sw) as i32,
        yrt: corner_radius(rt as int, hh, sh) as i32,
        xrb: corner_radius(rb as int, hw, sw) as i32,
        yrb: corner_radius(rb as int, hh, sh) as i32,
        xlb: corner_radius(lb as int, hw, sw) as i32,
        ylb: corner_radius(lb as int, hh, sh) as i32,
    }
}

/// A radius `r` along an extent `ext`: it points the same way and reaches at most half of it.
pub open spec fn radius_fits(r: int, ext: int) -> bool {
    &&& min_int(0, ext) <= r <= max_int(0, ext)
    &&& abs(r) * 2 <= abs(ext)
    &&& r * sign(ext) >= 0
}

pub open spec fn radii_fit(k: CornerRadii, rect: PixelRect) -> bool {
    let (w, h) = (rect.size.width as int, rect.size.height as int);
    &&& radius_fits(k.xlt as int, w) && radius_fits(k.ylt as int, h)
    &&& radius_fits(k.xrt as int, w) && radius_fits(k.yrt as int, h)
    &&& radius_fits(k.xrb as int, w) && radius_fits(k.yrb as int, h)
    &&& radius_fits(k.xlb as int, w) && radius_fits(k.ylb as int, h)
}

/// The outline of `rect` with the corners cut by quarter-circle Bezier arcs of radii `k`.
pub open spec fn outline_with(rect: PixelRect, k: CornerRadii) -> Seq<PathElement> {
    let (x, y, w, h) = (rect.left(), rect.top(), rect.size.width as int, rect.size.height as int);
    seq![
        PathElement::MoveTo(pt(x, y + k.ylt)),
        PathElement::LineTo(pt(x, y + h - k.ylb)),
        PathElement::BezierTo(
            pt(x, y + h - inset(k.ylb as int)),
            pt(x + inset(k.xlb as int), y + h),
            pt(x + k.xlb, y + h),
        ),
        PathElement::LineTo(pt(x + w - k.xrb, y + h)),
        PathElement::BezierTo(
            pt(x + w - inset(k.xrb as int), y + h),
            pt(x + w, y + h - inset(k.yrb as int)),
            pt(x + w, y + h - k.yrb),
        ),
        PathElement::LineTo(pt(x + w, y + k.yrt)),
        PathElement::BezierTo(
            pt(x + w, y + inset(k.yrt as int)),
            pt(x + w - inset(k.xrt as int), y),
            pt(x + w - k.xrt, y),
        ),
        PathElement::LineTo(pt(x + k.xlt, y)),
        PathElement::BezierTo(
            pt(x + inset(k.xlt as int), y),
            pt(x, y + inset(k.ylt as int)),
            pt(x, y + k.ylt),
        ),
        PathElement::ClosePath,
    ]
}

/// The outline of `rect` with corners rounded by quarter-circle Bezier arcs:
/// left-top `lt`, right-top `rt`, right-bottom `rb`, left-bottom `lb`, each
/// held to half the width and half the height.
pub open spec fn rounded_outline(rect: PixelRect, lt: i32, rt: i32, rb: i32, lb: i32) -> Seq<
    PathElement,
> {
    if lt < RADIUS_EPSILON && rt < RADIUS_EPSILON && lb < RADIUS_EPSILON && rb < RADIUS_EPSILON {
        rect_outline(rect)
    } else {
        outline_with(rect, radii_of(rect, lt, rt, rb, lb))
    }
}

proof fn lemma_inset_bounds(r: int)
    ensures
        0 <= abs(inset(r)) <= abs(r),
        r >= 0 ==> inset(r) >= 0,
        r <= 0 ==> inset(r) <= 0,
{
    reveal(inset);
    let a = abs(r);
    assert(0 <= a * (KAPPA_INSET_NUM as int) / (KAPPA_INSET_DEN as int) <= a) by (nonlinear_arith)
        requires
            a >= 0,
    ;
}

proof fn lemma_corner_radius(requested: int, ext: int)
    ensures
        ({
            let r = corner_radius(requested, abs(ext) / 2, sign(ext));
            &&& min_int(0, ext) <= r <= max_int(0, ext)
            &&& abs(r) * 2 <= abs(ext)
            &&& abs(r) <= abs(ext) / 2
            &&& r * sign(ext) >= 0
        }),
{
}

proof fn lemma_inset_fits(r: int, ext: int)
    requires
        radius_fits(r, ext),
    ensures
        radius_fits(inset(r), ext),
{
    lemma_inset_bounds(r);
    if ext > 0 {
        assert(r >= 0);
    } else if ext < 0 {
        assert(r <= 0);
    } else {
        assert(r == 0);
    }
}

fn corner_radius_exec(requested: i32, half: i32, s: i32) -> (r: i32)
    requires
        0 <= half,
        s == 1 || s == -1 || s == 0,
    ensures
        r == corner_radius(requested as int, half as int, s as int),
{
    let c = if requested < 0 { 0 } else if requested > half { half } else { requested };
    if s > 0 { c } else if s < 0 { -c } else { 0 }
}

fn inset_exec(r: i32) -> (o: i32)
    ensures
        o == inset(r as int),
{
    proof {
        lemma_inset_bounds(r as int);
    }
    let a: i64 = if r >= 0 { r as i64 } else { -(r as i64) };
    assert(a * KAPPA_INSET_NUM <= 0x8000_0000 * KAPPA_INSET_NUM) by (nonlinear_arith)
        requires
            0 <= a <= 0x8000_0000,
    ;
    let v = a * KAPPA_INSET_NUM / KAPPA_INSET_DEN;
    proof {
        reveal(inset);
    }
    if r >= 0 { v as i32 } else { -(v as i32) }
}

fn radii(rect: PixelRect, lt: i32, rt: i32, rb: i32, lb: i32) -> (k: CornerRadii)
    ensures
        k == radii_of(rect, lt, rt, rb, lb),
        radii_fit(k, rect),
{
    let w = rect.size.width;
    let h = rect.size.height;
    proof {
        lemma_corner_radius(lb as int, w as int);
        lemma_corner_radius(lb as int, h as int);
        lemma_corner_radius(rb as int, w as int);
        lemma_corner_radius(rb as int, h as int);
        lemma_corner_radius(rt as int, w as int);
        lemma_corner_radius(rt as int, h as int);
        lemma_corner_radius(lt as int, w as int);
        lemma_corner_radius(lt as int, h as int);
    }
    let hw: i32 = ((if w >= 0 { w as i64 } else { -(w as i64) }) / 2) as i32;
    let hh: i32 = ((if h >= 0 { h as i64 } else { -(h as i64) }) / 2) as i32;
    let sw: i32 = if w > 0 { 1 } else if w < 0 { -1 } else { 0 };
    let sh: i32 = if h > 0 { 1 } else if h < 0 { -1 } else { 0 };
    CornerRadii {
        xlt: corner_radius_exec(lt, hw, sw),
        ylt: corner_radius_exec(lt, hh, sh),
        xrt: corner_radius_exec(rt, hw, sw),
        yrt: corner_radius_exec(rt, hh, sh),
        xrb: corner_radius_exec(rb, hw, sw),
        yrb: corner_radius_exec(rb, hh, sh),
        xlb: corner_radius_exec(lb, hw, sw),
        ylb: corner_radius_exec(lb, hh, sh),
    }
}

/// A coordinate `c` moved by `d`, forward or back, where `d` reaches at most
/// half of `ext` and `c` moved by `ext` stays representable.
fn moved(c: i32, d: i32, ext: i32, forward: bool) -> (r: i32)
    requires
        radius_fits(d as int, ext as int),
        forward ==> i32::MIN <= c + ext <= i32::MAX,
        !forward ==> i32::MIN <= c - ext <= i32::MAX,
    ensures
        forward ==> r == c + d,
        !forward ==> r == c - d,
{
    if forward { c + d } else { c - d }
}

#[verifier::rlimit(60)]
fn outline_path(rect: PixelRect, k: CornerRadii) -> (r: Vec<PathElement>)
    requires
        rect.wf(),
        radii_fit(k, rect),
    ensures
        r@ == outline_with(rect, k),
{
    let x = rect.origin.x;
    let y = rect.origin.y;
    let w = rect.size.width;
    let h = rect.size.height;
    let x2 = x + w;
    let y2 = y + h;
    proof {
        lemma_inset_fits(k.xlb as int, w as int);
        lemma_inset_fits(k.ylb as int, h as int);
        lemma_inset_fits(k.xrb as int, w as int);
        lemma_inset_fits(k.yrb as int, h as int);
        lemma_inset_fits(k.xrt as int, w as int);
        lemma_inset_fits(k.yrt as int, h as int);
        lemma_inset_fits(k.xlt as int, w as int);
        lemma_inset_fits(k.ylt as int, h as int);
    }
    let ixlb = inset_exec(k.xlb);
    let iylb = inset_exec(k.ylb);
    let ixrb = inset_exec(k.xrb);
    let iyrb = inset_exec(k.yrb);
    let ixrt = inset_exec(k.xrt);
    let iyrt = inset_exec(k.yrt);
    let ixlt = inset_exec(k.xlt);
    let iylt = inset_exec(k.ylt);
    let mut res: Vec<PathElement> = Vec::with_capacity(10);
    res.push(PathElement::MoveTo(PixelPoint::new(x, moved(y, k.ylt, h, true))));
    res.push(PathElement::LineTo(PixelPoint::new(x, moved(y2, k.ylb, h, false))));
    res.push(
        PathElement::BezierTo(
            PixelPoint::new(x, moved(y2, iylb, h, false)),
            PixelPoint::new(moved(x, ixlb, w, true), y2),
            PixelPoint::new(moved(x, k.xlb, w, true), y2),
        ),
    );
    res.push(PathElement::LineTo(PixelPoint::new(moved(x2, k.xrb, w, false), y2)));
    res.push(
        PathElement::BezierTo(
            PixelPoint::new(moved(x2, ixrb, w, false), y2),
            PixelPoint::new(x2, moved(y2, iyrb, h, false)),
            PixelPoint::new(x2, moved(y2, k.yrb, h, false)),
        ),
    );
    res.push(PathElement::LineTo(PixelPoint::new(x2, moved(y, k.yrt, h, true))));
    res.push(
        PathElement::BezierTo(
            PixelPoint::new(x2, moved(y, iyrt, h, true)),
            PixelPoint::new(moved(x2, ixrt, w, false), y),
            PixelPoint::new(moved(x2, k.xrt, w, false), y),
        ),
    );
    res.push(PathElement::LineTo(PixelPoint::new(moved(x, k.xlt, w, true), y)));
    res.push(
        PathElement::BezierTo(
            PixelPoint::new(moved(x, ixlt, w, true), y),
            PixelPoint::new(x, moved(y, iylt, h, true)),
            PixelPoint::new(x, moved(y, k.ylt, h, true)),
        ),
    );
    res.push(PathElement::ClosePath);
    assert(res@ =~= outline_with(rect, k));
    res
}

/// A rectangle outline whose corners are rounded with independently chosen radii,
/// each held to half the width and half the height; with every radius below
/// `RADIUS_EPSILON` it is the plain rectangle outline.
pub fn rounded_rect_varying_path(rect: PixelRect, lt: i32, rt: i32, rb: i32, lb: i32) -> (r: Vec<
    PathElement,
>)
    requires
        rect.wf(),
    ensures
        r@ == rounded_outline(rect, lt, rt, rb, lb),
{
    if lt < RADIUS_EPSILON && rt < RADIUS_EPSILON && lb < RADIUS_EPSILON && rb < RADIUS_EPSILON {
        return rect_path(rect);
    }
    outline_path(rect, radii(rect, lt, rt, rb, lb))
}

/// A rounded rectangle with the same radius at every corner.
pub fn rounded_rect_path(rect: PixelRect, radius: i32) -> (r: Vec<PathElement>)
    requires
        rect.wf(),
    ensures
        r@ == rounded_outline(rect, radius, radius, radius, radius),
{
    rounded_rect_varying_path(rect, radius, radius, radius, radius)
}

/// With all four radii zero the rounded outline is the rectangle outline, point for point.
pub proof fn lemma_zero_radii_is_rect(rect: PixelRect)
    ensures
        rounded_outline(rect, 0, 0, 0, 0) == rect_outline(rect),
{
}

/// Corner radii are clamped: a requested radius of at least half an extent
/// becomes exactly half of it, every arc runs the way its side runs and spans at
/// most half the side, and the two arcs on one side never overlap.
pub proof fn lemma_radii_clamped(rect: PixelRect, lt: i32, rt: i32, rb: i32, lb: i32)
    ensures
        ({
            let k = radii_of(rect, lt, rt, rb, lb);
            let (w, h) = (rect.size.width as int, rect.size.height as int);
            &&& radii_fit(k, rect)
            &&& abs(k.ylt as int) + abs(k.ylb as int) <= abs(h)
            &&& abs(k.yrt as int) + abs(k.yrb as int) <= abs(h)
            &&& abs(k.xlt as int) + abs(k.xrt as int) <= abs(w)
            &&& abs(k.xlb as int) + abs(k.xrb as int) <= abs(w)
            &&& lt >= abs(w) / 2 ==> k.xlt == abs(w) / 2 * sign(w)
            &&& lt >= abs(h) / 2 ==> k.ylt == abs(h) / 2 * sign(h)
            &&& rt >= abs(w) / 2 ==> k.xrt == abs(w) / 2 * sign(w)
            &&& rt >= abs(h) / 2 ==> k.yrt == abs(h) / 2 * sign(h)
            &&& rb >= abs(w) / 2 ==> k.xrb == abs(w) / 2 * sign(w)
            &&& rb >= abs(h) / 2 ==> k.yrb == abs(h) / 2 * sign(h)
            &&& lb >= abs(w) / 2 ==> k.xlb == abs(w) / 2 * sign(w)
            &&& lb >= abs(h) / 2 ==> k.ylb == abs(h) / 2 * sign(h)
        }),
        !(lt < RADIUS_EPSILON && rt < RADIUS_EPSILON && lb < RADIUS_EPSILON && rb < RADIUS_EPSILON)
            ==> rounded_outline(rect, lt, rt, rb, lb) == outline_with(
            rect,
            radii_of(rect, lt, rt, rb, lb),
        ),
{
    let (w, h) = (rect.size.width as int, rect.size.height as int);
    lemma_corner_radius(lt as int, w);
    lemma_corner_radius(lt as int, h);
    lemma_corner_radius(rt as int, w);
    lemma_corner_radius(rt as int, h);
    lemma_corner_radius(rb as int, w);
    lemma_corner_radius(rb as int, h);
    lemma_corner_radius(lb as int, w);
    lemma_corner_radius(lb as int, h);
}

} // verus!
