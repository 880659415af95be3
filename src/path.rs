use vstd::prelude::*;

use crate::primitive::{PathElement, Solidity};
use crate::units::{max_int, min_int, PixelPoint};

verus! {

/// One sub-path approximated by straight segments.
#[derive(Debug, PartialEq)]
pub struct SubPath {
    pub points: Vec<PixelPoint>,
    pub closed: bool,
    pub solidity: Solidity,
}

pub struct SubPathModel {
    pub points: Seq<PixelPoint>,
    pub closed: bool,
    pub solidity: Solidity,
}

impl View for SubPath {
    type V = SubPathModel;

    open spec fn view(&self) -> SubPathModel {
        SubPathModel { points: self.points@, closed: self.closed, solidity: self.solidity }
    }
}

pub open spec fn subpaths_view(s: Seq<SubPath>) -> Seq<SubPathModel> {
    Seq::new(s.len(), |i: int| s[i]@)
}

/// Every sub-path holds at least one point.
pub open spec fn subpaths_wf(s: Seq<SubPathModel>) -> bool {
    forall|i: int| 0 <= i < s.len() ==> (#[trigger] s[i]).points.len() > 0
}

/// The middle of `a` and `b`, rounded toward the smaller one.
pub open spec fn mid(a: int, b: int) -> int {
    if a <= b {
        a + (b - a) / 2
    } else {
        b + (a - b) / 2
    }
}

pub open spec fn mid_point(a: PixelPoint, b: PixelPoint) -> PixelPoint {
    PixelPoint { x: mid(a.x as int, b.x as int) as i32, y: mid(a.y as int, b.y as int) as i32 }
}

pub open spec fn abs(v: int) -> int {
    if v >= 0 { v } else { -v }
}

/// The curve from `from` to `to` strays from its chord by at most `tol` along each
/// axis. With `u = 3 c1 - 2 from - to` and `v = 3 c2 - from - 2 to`, the curve minus
/// the chord at parameter `t` is `t (1 - t) ((1 - t) u + t v)`, and
/// `t (1 - t) <= 1/4`, so `|u|, |v| <= 4 tol` is enough.
pub open spec fn flat_enough(
    from: PixelPoint,
    c1: PixelPoint,
    c2: PixelPoint,
    to: PixelPoint,
    tol: int,
) -> bool {
    &&& abs(3 * c1.x - 2 * from.x - to.x) <= 4 * tol
    &&& abs(3 * c1.y - 2 * from.y - to.y) <= 4 * tol
    &&& abs(3 * c2.x - from.x - 2 * to.x) <= 4 * tol
    &&& abs(3 * c2.y - from.y - 2 * to.y) <= 4 * tol
}

/// How many times a curve is halved at most.
pub const MAX_FLATTEN_DEPTH: u32 = 10;

/// `q` appended to a polyline, unless the polyline already ends there.
pub open spec fn append_point(pts: Seq<PixelPoint>, q: PixelPoint) -> Seq<PixelPoint> {
    if pts.len() > 0 && pts.last() == q {
        pts
    } else {
        pts.push(q)
    }
}

/// The polyline `pts` continued along the cubic Bezier curve `from c1 c2 to`: the
/// curve is halved (de Casteljau) until each piece is flat enough or `depth` is spent.
pub open spec fn bezier_appended(
    pts: Seq<PixelPoint>,
    from: PixelPoint,
    c1: PixelPoint,
    c2: PixelPoint,
    to: PixelPoint,
    tol: int,
    depth: nat,
) -> Seq<PixelPoint>
    decreases depth,
{
    if depth == 0 || flat_enough(from, c1, c2, to, tol) {
        append_point(pts, to)
    } else {
        let p01 = mid_point(from, c1);
        let p12 = mid_point(c1, c2);
        let p23 = mid_point(c2, to);
        let p012 = mid_point(p01, p12);
        let p123 = mid_point(p12, p23);
        let m = mid_point(p012, p123);
        bezier_appended(
            bezier_appended(pts, from, p01, p012, m, tol, (depth - 1) as nat),
            m,
            p123,
            p23,
            to,
            tol,
            (depth - 1) as nat,
        )
    }
}

/// Where drawing continues: the end of the open sub-path, or the start of the
/// sub-path just closed.
pub open spec fn current_point(s: Seq<SubPathModel>) -> Option<PixelPoint> {
    if s.len() == 0 {
        None
    } else if s.last().closed {
        Some(s.last().points[0])
    } else {
        Some(s.last().points.last())
    }
}

/// `s` with an open sub-path last: a new one starts at the current point, or at
/// `fallback` when there is none.
pub open spec fn with_open(s: Seq<SubPathModel>, fallback: PixelPoint) -> Seq<SubPathModel> {
    if s.len() > 0 && !s.last().closed {
        s
    } else {
        let start = match current_point(s) {
            Some(p) => p,
            None => fallback,
        };
        s.push(SubPathModel { points: seq![start], closed: false, solidity: Solidity::Solid })
    }
}

pub open spec fn with_last_points(s: Seq<SubPathModel>, pts: Seq<PixelPoint>) -> Seq<SubPathModel> {
    s.update(s.len() - 1, SubPathModel { points: pts, ..s.last() })
}

/// The points of a closed sub-path, without a last point that repeats the first.
pub open spec fn closed_points(pts: Seq<PixelPoint>) -> Seq<PixelPoint> {
    if pts.len() > 1 && pts.last() == pts[0] {
        pts.drop_last()
    } else {
        pts
    }
}

/// The sub-paths after one more path element.
pub open spec fn flatten_step(s: Seq<SubPathModel>, e: PathElement, tol: int) -> Seq<SubPathModel> {
    match e {
        PathElement::MoveTo(p) => s.push(
            SubPathModel { points: seq![p], closed: false, solidity: Solidity::Solid },
        ),
        PathElement::LineTo(p) => {
            let t = with_open(s, p);
            with_last_points(t, append_point(t.last().points, p))
        },
        PathElement::BezierTo(c1, c2, p) => {
            let t = with_open(s, p);
            let pts = t.last().points;
            with_last_points(
                t,
                bezier_appended(pts, pts.last(), c1, c2, p, tol, MAX_FLATTEN_DEPTH as nat),
            )
        },
        PathElement::ClosePath => if s.len() > 0 {
            s.update(
                s.len() - 1,
                SubPathModel { points: closed_points(s.last().points), closed: true, ..s.last() },
            )
        } else {
            s
        },
        PathElement::Solidity(k) => if s.len() > 0 {
            s.update(s.len() - 1, SubPathModel { solidity: k, ..s.last() })
        } else {
            s
        },
    }
}

/// The sub-paths of a whole path, flattened with tolerance `tol`.
pub open spec fn flattened(path: Seq<PathElement>, tol: int) -> Seq<SubPathModel>
    decreases path.len(),
{
    if path.len() == 0 {
        Seq::empty()
    } else {
        flatten_step(flattened(path.drop_last(), tol), path.last(), tol)
    }
}

fn mid_exec(a: i32, b: i32) -> (r: i32)
    ensures
        r == mid(a as int, b as int),
        min_int(a as int, b as int) <= r <= max_int(a as int, b as int),
{
    if a <= b {
        (a as i64 + (b as i64 - a as i64) / 2) as i32
    } else {
        (b as i64 + (a as i64 - b as i64) / 2) as i32
    }
}

fn mid_point_exec(a: PixelPoint, b: PixelPoint) -> (r: PixelPoint)
    ensures
        r == mid_point(a, b),
{
    PixelPoint { x: mid_exec(a.x, b.x), y: mid_exec(a.y, b.y) }
}

fn abs_exec(v: i64) -> (r: i64)
    requires
        v > i64::MIN,
    ensures
        r == abs(v as int),
{
    if v >= 0 { v } else { -v }
}

fn flat_enough_exec(from: PixelPoint, c1: PixelPoint, c2: PixelPoint, to: PixelPoint, tol: u32) -> (r: bool)
    ensures
        r == flat_enough(from, c1, c2, to, tol as int),
{
    let lim = 4 * tol as i64;
    let ux = 3 * c1.x as i64 - 2 * from.x as i64 - to.x as i64;
    let uy = 3 * c1.y as i64 - 2 * from.y as i64 - to.y as i64;
    let vx = 3 * c2.x as i64 - from.x as i64 - 2 * to.x as i64;
    let vy = 3 * c2.y as i64 - from.y as i64 - 2 * to.y as i64;
    abs_exec(ux) <= lim && abs_exec(uy) <= lim && abs_exec(vx) <= lim && abs_exec(vy) <= lim
}

fn append_point_exec(pts: &mut Vec<PixelPoint>, q: PixelPoint)
    ensures
        final(pts)@ == append_point(old(pts)@, q),
{
    let n = pts.len();
    if n > 0 && pts[n - 1] == q {
        return;
    }
    pts.push(q);
}

fn append_bezier(
    pts: &mut Vec<PixelPoint>,
    from: PixelPoint,
    c1: PixelPoint,
    c2: PixelPoint,
    to: PixelPoint,
    tol: u32,
    depth: u32,
)
    ensures
        final(pts)@ == bezier_appended(old(pts)@, from, c1, c2, to, tol as int, depth as nat),
    decreases depth,
{
    if depth == 0 || flat_enough_exec(from, c1, c2, to, tol) {
        append_point_exec(pts, to);
    } else {
        let p01 = mid_point_exec(from, c1);
        let p12 = mid_point_exec(c1, c2);
        let p23 = mid_point_exec(c2, to);
        let p012 = mid_point_exec(p01, p12);
        let p123 = mid_point_exec(p12, p23);
        let m = mid_point_exec(p012, p123);
        append_bezier(pts, from, p01, p012, m, tol, depth - 1);
        append_bezier(pts, m, p123, p23, to, tol, depth - 1);
    }
}

proof fn lemma_append_nonempty(pts: Seq<PixelPoint>, q: PixelPoint)
    ensures
        append_point(pts, q).len() > 0,
        append_point(pts, q).len() >= pts.len(),
        forall|i: int| 0 <= i < pts.len() ==> append_point(pts, q)[i] == pts[i],
{
}

proof fn lemma_bezier_nonempty(
    pts: Seq<PixelPoint>,
    from: PixelPoint,
    c1: PixelPoint,
    c2: PixelPoint,
    to: PixelPoint,
    tol: int,
    depth: nat,
)
    ensures
        bezier_appended(pts, from, c1, c2, to, tol, depth).len() > 0,
        bezier_appended(pts, from, c1, c2, to, tol, depth).len() >= pts.len(),
        forall|i: int|
            0 <= i < pts.len() ==> bezier_appended(pts, from, c1, c2, to, tol, depth)[i] == pts[i],
    decreases depth,
{
    if depth == 0 || flat_enough(from, c1, c2, to, tol) {
        lemma_append_nonempty(pts, to);
    } else {
        let p01 = mid_point(from, c1);
        let p12 = mid_point(c1, c2);
        let p23 = mid_point(c2, to);
        let p012 = mid_point(p01, p12);
        let p123 = mid_point(p12, p23);
        let m = mid_point(p012, p123);
        let first = bezier_appended(pts, from, p01, p012, m, tol, (depth - 1) as nat);
        lemma_bezier_nonempty(pts, from, p01, p012, m, tol, (depth - 1) as nat);
        lemma_bezier_nonempty(first, m, p123, p23, to, tol, (depth - 1) as nat);
    }
}

fn ensure_open(out: &mut Vec<SubPath>, fallback: PixelPoint)
    requires
        subpaths_wf(subpaths_view(old(out)@)),
    ensures
        subpaths_view(final(out)@) == with_open(subpaths_view(old(out)@), fallback),
        subpaths_wf(subpaths_view(final(out)@)),
        final(out)@.len() > 0,
{
    let ghost before = subpaths_view(out@);
    let n = out.len();
    if n > 0 && !out[n - 1].closed {
        return;
    }
    let start = if n == 0 {
        fallback
    } else {
        assert(before[n - 1].points.len() > 0);
        out[n - 1].points[0]
    };
    let mut pts: Vec<PixelPoint> = Vec::new();
    pts.push(start);
    assert(pts@ =~= seq![start]);
    out.push(SubPath { points: pts, closed: false, solidity: Solidity::Solid });
    proof {
        let sp = SubPathModel { points: seq![start], closed: false, solidity: Solidity::Solid };
        assert(subpaths_view(out@) =~= before.push(sp));
    }
}

fn take_last(out: &mut Vec<SubPath>) -> (last: SubPath)
    requires
        old(out)@.len() > 0,
        subpaths_wf(subpaths_view(old(out)@)),
    ensures
        subpaths_view(final(out)@) == subpaths_view(old(out)@).drop_last(),
        last@ == subpaths_view(old(out)@).last(),
        last@.points.len() > 0,
        subpaths_wf(subpaths_view(final(out)@)),
{
    let ghost before = subpaths_view(out@);
    let last = match out.pop() {
        Some(l) => l,
        None => SubPath { points: Vec::new(), closed: false, solidity: Solidity::Solid },
    };
    assert(subpaths_view(out@) =~= before.drop_last());
    last
}

fn put_last(out: &mut Vec<SubPath>, last: SubPath)
    requires
        subpaths_wf(subpaths_view(old(out)@)),
        last@.points.len() > 0,
    ensures
        subpaths_view(final(out)@) == subpaths_view(old(out)@).push(last@),
        subpaths_wf(subpaths_view(final(out)@)),
{
    let ghost before = subpaths_view(out@);
    let ghost lm = last@;
    out.push(last);
    assert(subpaths_view(out@) =~= before.push(lm));
}

fn flatten_step_exec(out: &mut Vec<SubPath>, e: PathElement, tol: u32)
    requires
        subpaths_wf(subpaths_view(old(out)@)),
    ensures
        subpaths_view(final(out)@) == flatten_step(subpaths_view(old(out)@), e, tol as int),
        subpaths_wf(subpaths_view(final(out)@)),
{
    let ghost before = subpaths_view(out@);
    match e {
        PathElement::MoveTo(p) => {
            let mut pts: Vec<PixelPoint> = Vec::new();
            pts.push(p);
            assert(pts@ =~= seq![p]);
            put_last(out, SubPath { points: pts, closed: false, solidity: Solidity::Solid });
        },
        PathElement::LineTo(p) => {
            ensure_open(out, p);
            let ghost t = subpaths_view(out@);
            let mut last = take_last(out);
            proof {
                lemma_append_nonempty(last.points@, p);
            }
            append_point_exec(&mut last.points, p);
            put_last(out, last);
            assert(subpaths_view(out@) =~= with_last_points(t, append_point(t.last().points, p)));
        },
        PathElement::BezierTo(c1, c2, p) => {
            ensure_open(out, p);
            let ghost t = subpaths_view(out@);
            let mut last = take_last(out);
            let n = last.points.len();
            let start = last.points[n - 1];
            proof {
                lemma_bezier_nonempty(last.points@, start, c1, c2, p, tol as int, MAX_FLATTEN_DEPTH as nat);
            }
            append_bezier(&mut last.points, start, c1, c2, p, tol, MAX_FLATTEN_DEPTH);
            put_last(out, last);
            assert(subpaths_view(out@) =~= with_last_points(
                t,
                bezier_appended(t.last().points, t.last().points.last(), c1, c2, p, tol as int, MAX_FLATTEN_DEPTH as nat),
            ));
        },
        PathElement::ClosePath => {
            if out.len() > 0 {
                let mut last = take_last(out);
                let n = last.points.len();
                if n > 1 && last.points[n - 1] == last.points[0] {
                    last.points.pop();
                }
                last.closed = true;
                put_last(out, last);
                assert(subpaths_view(out@) =~= flatten_step(before, e, tol as int));
            }
        },
        PathElement::Solidity(k) => {
            if out.len() > 0 {
                let mut last = take_last(out);
                last.solidity = k;
                put_last(out, last);
                assert(subpaths_view(out@) =~= flatten_step(before, e, tol as int));
            }
        },
    }
}

/// Splits a path into sub-paths and replaces each curve by a polyline, with
/// tolerance `tol` along each axis; points that repeat the one before are dropped.
pub fn flatten(path: &Vec<PathElement>, tol: u32) -> (r: Vec<SubPath>)
    ensures
        subpaths_view(r@) == flattened(path@, tol as int),
        subpaths_wf(subpaths_view(r@)),
{
    let mut out: Vec<SubPath> = Vec::new();
    let mut i: usize = 0;
    assert(subpaths_view(out@) =~= Seq::<SubPathModel>::empty());
    while i < path.len()
        invariant
            i <= path@.len(),
            subpaths_view(out@) == flattened(path@.subrange(0, i as int), tol as int),
            subpaths_wf(subpaths_view(out@)),
        decreases path@.len() - i,
    {
        flatten_step_exec(&mut out, path[i], tol);
        assert(path@.subrange(0, i + 1).drop_last() =~= path@.subrange(0, i as int));
        i = i + 1;
    }
    assert(path@.subrange(0, path@.len() as int) =~= path@);
    out
}

/// `b^3` times one coordinate of the cubic Bezier curve `q0 q1 q2 q3` at `t = a / b`.
pub open spec fn curve_at(q0: int, q1: int, q2: int, q3: int, a: int, b: int) -> int {
    let s = b - a;
    s * s * s * q0 + 3 * s * s * a * q1 + 3 * s * a * a * q2 + a * a * a * q3
}

/// `b^3` times one coordinate of the chord from `q0` to `q3` at `t = a / b`.
pub open spec fn chord_at(q0: int, q3: int, a: int, b: int) -> int {
    b * b * ((b - a) * q0 + a * q3)
}

proof fn lemma_axis_within(q0: int, q1: int, q2: int, q3: int, tol: int, a: int, b: int)
    requires
        abs(3 * q1 - 2 * q0 - q3) <= 4 * tol,
        abs(3 * q2 - q0 - 2 * q3) <= 4 * tol,
        0 <= a <= b,
        b > 0,
    ensures
        abs(curve_at(q0, q1, q2, q3, a, b) - chord_at(q0, q3, a, b)) <= b * b * b * tol,
{
    let s = b - a;
    let u = 3 * q1 - 2 * q0 - q3;
    let v = 3 * q2 - q0 - 2 * q3;
    let curve = curve_at(q0, q1, q2, q3, a, b);
    let chord = chord_at(q0, q3, a, b);
    let d = curve - chord;
    let (ssa, saa, sss, aaa) = (s * s * a, s * a * a, s * s * s, a * a * a);
    assert(curve == ssa * (3 * q1) + saa * (3 * q2) + sss * q0 + aaa * q3) by (nonlinear_arith)
        requires
            s == b - a,
            curve == s * s * s * q0 + 3 * s * s * a * q1 + 3 * s * a * a * q2 + a * a * a * q3,
            ssa == s * s * a,
            saa == s * a * a,
            sss == s * s * s,
            aaa == a * a * a,
    ;
    assert(ssa * (3 * q1) == ssa * u + 2 * ssa * q0 + ssa * q3) by (nonlinear_arith)
        requires
            3 * q1 == u + 2 * q0 + q3,
    ;
    assert(saa * (3 * q2) == saa * v + saa * q0 + 2 * saa * q3) by (nonlinear_arith)
        requires
            3 * q2 == v + q0 + 2 * q3,
    ;
    let (sbb, abb) = (s * b * b, a * b * b);
    assert(sss + 2 * ssa + saa == sbb && ssa + 2 * saa + aaa == abb) by (nonlinear_arith)
        requires
            b == a + s,
            ssa == s * s * a,
            saa == s * a * a,
            sss == s * s * s,
            aaa == a * a * a,
            sbb == s * b * b,
            abb == a * b * b,
    ;
    assert((sss + 2 * ssa + saa) * q0 == sss * q0 + 2 * ssa * q0 + saa * q0) by (nonlinear_arith);
    assert((ssa + 2 * saa + aaa) * q3 == ssa * q3 + 2 * saa * q3 + aaa * q3) by (nonlinear_arith);
    assert(chord == sbb * q0 + abb * q3) by (nonlinear_arith)
        requires
            chord == b * b * ((b - a) * q0 + a * q3),
            s == b - a,
            sbb == s * b * b,
            abb == a * b * b,
    ;
    assert(d == ssa * u + saa * v);
    assert(d == a * s * (s * u + a * v)) by (nonlinear_arith)
        requires
            d == ssa * u + saa * v,
            ssa == s * s * a,
            saa == s * a * a,
    ;
    let w = s * u + a * v;
    assert(abs(w) <= 4 * b * tol) by (nonlinear_arith)
        requires
            w == s * u + a * v,
            abs(u) <= 4 * tol,
            abs(v) <= 4 * tol,
            s >= 0,
            a >= 0,
            b == a + s,
    ;
    assert(4 * (a * s) <= b * b) by (nonlinear_arith)
        requires
            b == a + s,
    ;
    assert(abs(d) <= b * b * b * tol) by (nonlinear_arith)
        requires
            d == (a * s) * w,
            a * s >= 0,
            4 * (a * s) <= b * b,
            abs(w) <= 4 * b * tol,
            b > 0,
    ;
}

/// A piece that the flattening accepts as flat stays within `tol` of its chord
/// along each axis: at every parameter `t = a / b`, `b^3` times the curve point
/// and `b^3` times the chord point differ by at most `b^3 tol` in x and in y.
pub proof fn lemma_flat_piece_within_tolerance(
    from: PixelPoint,
    c1: PixelPoint,
    c2: PixelPoint,
    to: PixelPoint,
    tol: int,
    a: int,
    b: int,
)
    requires
        flat_enough(from, c1, c2, to, tol),
        0 <= a <= b,
        b > 0,
    ensures
        abs(curve_at(from.x as int, c1.x as int, c2.x as int, to.x as int, a, b) - chord_at(from.x as int, to.x as int, a, b))
            <= b * b * b * tol,
        abs(curve_at(from.y as int, c1.y as int, c2.y as int, to.y as int, a, b) - chord_at(from.y as int, to.y as int, a, b))
            <= b * b * b * tol,
{
    lemma_axis_within(from.x as int, c1.x as int, c2.x as int, to.x as int, tol, a, b);
    lemma_axis_within(from.y as int, c1.y as int, c2.y as int, to.y as int, tol, a, b);
}

/// `p` lies in the box `(min x, min y, max x, max y)`.
pub open spec fn in_box(p: PixelPoint, b: (int, int, int, int)) -> bool {
    b.0 <= p.x <= b.2 && b.1 <= p.y <= b.3
}

proof fn lemma_mid_in_box(a: PixelPoint, c: PixelPoint, b: (int, int, int, int))
    requires
        in_box(a, b),
        in_box(c, b),
    ensures
        in_box(mid_point(a, c), b),
{
}

/// Flattening a curve, with or without reaching the depth limit, only adds
/// points that lie in any box holding its four control points, and leaves the
/// polyline ending at the curve's end point; what was there before is kept.
pub proof fn lemma_bezier_in_hull(
    pts: Seq<PixelPoint>,
    from: PixelPoint,
    c1: PixelPoint,
    c2: PixelPoint,
    to: PixelPoint,
    tol: int,
    depth: nat,
    b: (int, int, int, int),
)
    requires
        in_box(from, b),
        in_box(c1, b),
        in_box(c2, b),
        in_box(to, b),
    ensures
        ({
            let out = bezier_appended(pts, from, c1, c2, to, tol, depth);
            &&& out.len() >= pts.len() && out.len() > 0
            &&& out.last() == to
            &&& forall|i: int| 0 <= i < pts.len() ==> out[i] == pts[i]
            &&& forall|i: int| pts.len() <= i < out.len() ==> in_box(#[trigger] out[i], b)
        }),
    decreases depth,
{
    lemma_bezier_nonempty(pts, from, c1, c2, to, tol, depth);
    if depth == 0 || flat_enough(from, c1, c2, to, tol) {
    } else {
        let p01 = mid_point(from, c1);
        let p12 = mid_point(c1, c2);
        let p23 = mid_point(c2, to);
        lemma_mid_in_box(from, c1, b);
        lemma_mid_in_box(c1, c2, b);
        lemma_mid_in_box(c2, to, b);
        let p012 = mid_point(p01, p12);
        let p123 = mid_point(p12, p23);
        lemma_mid_in_box(p01, p12, b);
        lemma_mid_in_box(p12, p23, b);
        let m = mid_point(p012, p123);
        lemma_mid_in_box(p012, p123, b);
        let d = (depth - 1) as nat;
        let first = bezier_appended(pts, from, p01, p012, m, tol, d);
        lemma_bezier_in_hull(pts, from, p01, p012, m, tol, d, b);
        lemma_bezier_in_hull(first, m, p123, p23, to, tol, d, b);
        let out = bezier_appended(first, m, p123, p23, to, tol, d);
        assert forall|i: int| pts.len() <= i < out.len() implies in_box(#[trigger] out[i], b) by {
            if i < first.len() {
                assert(out[i] == first[i]);
            }
        }
    }
}

} // verus!
