use vstd::prelude::*;

use crate::path::{subpaths_view, SubPath, SubPathModel};
use crate::primitive::{LineJoin, Solidity};
use crate::units::{PixelPoint, PixelRect};

verus! {

#[derive(Clone, Copy, Debug, PartialEq, Eq, Structural)]
pub struct Triangle {
    pub a: PixelPoint,
    pub b: PixelPoint,
    pub c: PixelPoint,
}

pub open spec fn cross(p: PixelPoint, q: PixelPoint) -> int {
    p.x * q.y - q.x * p.y
}

/// The first `k` terms of the shoelace sum of the closed polygon `pts`.
pub open spec fn shoelace(pts: Seq<PixelPoint>, k: nat) -> int
    decreases k,
{
    if k == 0 || k > pts.len() {
        0
    } else {
        let next = if k < pts.len() { k as int } else { 0 };
        shoelace(pts, (k - 1) as nat) + cross(pts[k - 1], pts[next])
    }
}

/// Twice the signed area of the closed polygon `pts`.
pub open spec fn area2(pts: Seq<PixelPoint>) -> int {
    shoelace(pts, pts.len())
}

/// The contour turned so that its orientation matches its solidity: solid
/// contours get a non-negative signed area, holes a non-positive one. Filled
/// with the non-zero rule, holes then cut out of the solid contours around them.
pub open spec fn oriented(pts: Seq<PixelPoint>, solidity: Solidity) -> Seq<PixelPoint> {
    if (solidity == Solidity::Solid && area2(pts) < 0) || (solidity == Solidity::Hole && area2(pts) > 0) {
        pts.reverse()
    } else {
        pts
    }
}

/// The triangle fan of a contour around its first point.
pub open spec fn fan(pts: Seq<PixelPoint>) -> Seq<Triangle> {
    if pts.len() >= 3 {
        Seq::new((pts.len() - 2) as nat, |i: int| Triangle { a: pts[0], b: pts[i + 1], c: pts[i + 2] })
    } else {
        Seq::empty()
    }
}

/// The fans of all contours, each oriented by its solidity, in order.
pub open spec fn fill_fans(subs: Seq<SubPathModel>) -> Seq<Triangle>
    decreases subs.len(),
{
    if subs.len() == 0 {
        Seq::empty()
    } else {
        fill_fans(subs.drop_last()) + fan(oriented(subs.last().points, subs.last().solidity))
    }
}

fn area2_exec(pts: &Vec<PixelPoint>) -> (r: i128)
    ensures
        r == area2(pts@),
{
    let n = pts.len();
    let mut sum: i128 = 0;
    let mut k: usize = 0;
    while k < n
        invariant
            n == pts@.len(),
            k <= n,
            sum == shoelace(pts@, k as nat),
            -(k as int) * 0x8000_0000_0000_0000 <= sum <= (k as int) * 0x8000_0000_0000_0000,
        decreases n - k,
    {
        let p = pts[k];
        let q = if k + 1 < n { pts[k + 1] } else { pts[0] };
        let px = p.x as i128;
        let py = p.y as i128;
        let qx = q.x as i128;
        let qy = q.y as i128;
        assert(-0x4000_0000_0000_0000 <= px * qy <= 0x4000_0000_0000_0000) by (nonlinear_arith)
            requires
                -0x8000_0000 <= px <= 0x7fff_ffff,
                -0x8000_0000 <= qy <= 0x7fff_ffff,
        ;
        assert(-0x4000_0000_0000_0000 <= qx * py <= 0x4000_0000_0000_0000) by (nonlinear_arith)
            requires
                -0x8000_0000 <= qx <= 0x7fff_ffff,
                -0x8000_0000 <= py <= 0x7fff_ffff,
        ;
        assert((k + 1) as int * 0x8000_0000_0000_0000 <= 0x1_0000_0000_0000_0000 * 0x8000_0000_0000_0000) by (nonlinear_arith)
            requires
                k + 1 <= 0x1_0000_0000_0000_0000,
        ;
        sum = sum + (px * qy - qx * py);
        k = k + 1;
    }
    sum
}

fn reversed(pts: &Vec<PixelPoint>) -> (r: Vec<PixelPoint>)
    ensures
        r@ == pts@.reverse(),
{
    let n = pts.len();
    let mut out: Vec<PixelPoint> = Vec::with_capacity(n);
    let mut i: usize = 0;
    while i < n
        invariant
            n == pts@.len(),
            i <= n,
            out@.len() == i,
            forall|j: int| 0 <= j < i ==> out@[j] == pts@[n - 1 - j],
        decreases n - i,
    {
        out.push(pts[n - 1 - i]);
        i = i + 1;
    }
    assert(out@ =~= pts@.reverse());
    out
}

fn push_fan(out: &mut Vec<Triangle>, pts: &Vec<PixelPoint>)
    ensures
        final(out)@ == old(out)@ + fan(pts@),
{
    let ghost before = out@;
    let n = pts.len();
    if n < 3 {
        assert(old(out)@ + fan(pts@) =~= before);
        return;
    }
    let mut i: usize = 0;
    while i < n - 2
        invariant
            n == pts@.len(),
            n >= 3,
            i <= n - 2,
            out@ == before + fan(pts@).subrange(0, i as int),
        decreases n - 2 - i,
    {
        out.push(Triangle { a: pts[0], b: pts[i + 1], c: pts[i + 2] });
        assert(fan(pts@).subrange(0, i + 1) =~= fan(pts@).subrange(0, i as int).push(
            Triangle { a: pts@[0], b: pts@[i + 1], c: pts@[i + 2] },
        ));
        i = i + 1;
    }
    assert(fan(pts@).subrange(0, (n - 2) as int) =~= fan(pts@));
}

/// The triangles that fill the flattened contours: each contour oriented by its
/// solidity and fanned around its first point; the device fills them with the
/// non-zero rule.
pub fn expand_fill(subs: &Vec<SubPath>) -> (r: Vec<Triangle>)
    ensures
        r@ == fill_fans(subpaths_view(subs@)),
{
    let mut out: Vec<Triangle> = Vec::new();
    let mut i: usize = 0;
    while i < subs.len()
        invariant
            i <= subs@.len(),
            out@ == fill_fans(subpaths_view(subs@).subrange(0, i as int)),
        decreases subs@.len() - i,
    {
        let sp = &subs[i];
        let area = area2_exec(&sp.points);
        if (sp.solidity == Solidity::Solid && area < 0) || (sp.solidity == Solidity::Hole && area > 0) {
            let rev = reversed(&sp.points);
            push_fan(&mut out, &rev);
        } else {
            push_fan(&mut out, &sp.points);
        }
        assert(subpaths_view(subs@).subrange(0, i + 1).drop_last() =~= subpaths_view(subs@).subrange(0, i as int));
        i = i + 1;
    }
    assert(subpaths_view(subs@).subrange(0, subs@.len() as int) =~= subpaths_view(subs@));
    out
}

/// Direction components up to this size are compared exactly; beyond it a
/// miter join is drawn as a bevel, which is never longer than the miter.
pub const JOIN_EXACT_LIMIT: i64 = 0x20_0000;

/// A miter join between segments with directions `d0` and `d1` reaches further
/// than `limit` half-widths. With `dot = d0 . d1` and `n = |d0| |d1|`, the miter
/// reaches `1 / cos(a / 2)` half-widths, `a` being the turn, so it is too long
/// when `limit^2 (n + dot) < 2 n`; `nn` is `n^2`, and both sides are squared
/// after their signs are settled. A zero direction counts as too long.
pub open spec fn miter_exceeds(dot: int, nn: int, limit: int) -> bool {
    let l2 = limit * limit;
    if l2 >= 2 {
        dot < 0 && l2 * l2 * dot * dot > (l2 - 2) * (l2 - 2) * nn
    } else {
        dot <= 0 || l2 * l2 * dot * dot < (2 - l2) * (2 - l2) * nn
    }
}

pub open spec fn small_direction(x: int, y: int) -> bool {
    -JOIN_EXACT_LIMIT <= x <= JOIN_EXACT_LIMIT && -JOIN_EXACT_LIMIT <= y <= JOIN_EXACT_LIMIT
}

/// The join drawn where a segment with direction `(ax, ay)` meets one with
/// direction `(bx, by)`: a miter becomes a bevel when it would be too long.
pub open spec fn join_for(ax: int, ay: int, bx: int, by: int, join: LineJoin, limit: u8) -> LineJoin {
    match join {
        LineJoin::Miter => if small_direction(ax, ay) && small_direction(bx, by) && !miter_exceeds(
            ax * bx + ay * by,
            (ax * ax + ay * ay) * (bx * bx + by * by),
            limit as int,
        ) {
            LineJoin::Miter
        } else {
            LineJoin::Bevel
        },
        _ => join,
    }
}

/// How many joins a stroked polyline has: one per vertex of a closed one, one
/// per interior vertex of an open one.
pub open spec fn join_count(n: int, closed: bool) -> int {
    if closed {
        n
    } else if n >= 2 {
        n - 2
    } else {
        0
    }
}

/// The join at the `k`-th joint of the polyline `pts`.
pub open spec fn join_at(pts: Seq<PixelPoint>, closed: bool, k: int, join: LineJoin, limit: u8) -> LineJoin {
    let n = pts.len() as int;
    let v = if closed { k } else { k + 1 };
    let prev = pts[(v + n - 1) % n];
    let cur = pts[v];
    let next = pts[(v + 1) % n];
    join_for(
        cur.x - prev.x,
        cur.y - prev.y,
        next.x - cur.x,
        next.y - cur.y,
        join,
        limit,
    )
}

pub open spec fn stroke_joins(pts: Seq<PixelPoint>, closed: bool, join: LineJoin, limit: u8) -> Seq<LineJoin> {
    Seq::new(join_count(pts.len() as int, closed) as nat, |k: int| join_at(pts, closed, k, join, limit))
}

fn miter_exceeds_exec(ax: i64, ay: i64, bx: i64, by: i64, limit: u8) -> (r: bool)
    requires
        small_direction(ax as int, ay as int),
        small_direction(bx as int, by as int),
    ensures
        r == miter_exceeds(
            ax * bx + ay * by,
            (ax * ax + ay * ay) * (bx * bx + by * by),
            limit as int,
        ),
{
    let (ax, ay, bx, by) = (ax as i128, ay as i128, bx as i128, by as i128);
    let lim = JOIN_EXACT_LIMIT as i128;
    assert(-lim * lim <= ax * bx <= lim * lim) by (nonlinear_arith)
        requires -lim <= ax <= lim, -lim <= bx <= lim, lim == 0x20_0000;
    assert(-lim * lim <= ay * by <= lim * lim) by (nonlinear_arith)
        requires -lim <= ay <= lim, -lim <= by <= lim, lim == 0x20_0000;
    assert(0 <= ax * ax <= lim * lim) by (nonlinear_arith)
        requires -lim <= ax <= lim, lim == 0x20_0000;
    assert(0 <= ay * ay <= lim * lim) by (nonlinear_arith)
        requires -lim <= ay <= lim, lim == 0x20_0000;
    assert(0 <= bx * bx <= lim * lim) by (nonlinear_arith)
        requires -lim <= bx <= lim, lim == 0x20_0000;
    assert(0 <= by * by <= lim * lim) by (nonlinear_arith)
        requires -lim <= by <= lim, lim == 0x20_0000;
    let dot = ax * bx + ay * by;
    let la = ax * ax + ay * ay;
    let lb = bx * bx + by * by;
    let m: i128 = 0x800_0000_0000;
    assert(0 <= la * lb <= m * m) by (nonlinear_arith)
        requires 0 <= la <= m, 0 <= lb <= m;
    let nn = la * lb;
    assert(0 <= dot * dot <= m * m) by (nonlinear_arith)
        requires -m <= dot <= m;
    let dd = dot * dot;
    let lm = limit as i128;
    assert(0 <= lm * lm <= 0x1_0000) by (nonlinear_arith)
        requires 0 <= lm <= 0xff;
    let l2 = lm * lm;
    assert(0 <= l2 * l2 <= 0x1_0000_0000) by (nonlinear_arith)
        requires 0 <= l2 <= 0x1_0000;
    assert(0 <= l2 * l2 * dd <= 0x1_0000_0000 * (m * m)) by (nonlinear_arith)
        requires 0 <= l2 * l2 <= 0x1_0000_0000, 0 <= dd <= m * m;
    assert(l2 * l2 * dd == l2 * l2 * dot * dot) by (nonlinear_arith)
        requires dd == dot * dot;
    if l2 >= 2 {
        let e = l2 - 2;
        assert(0 <= e * e <= 0x1_0000_0000) by (nonlinear_arith)
            requires 0 <= e <= 0x1_0000;
        let g = e * e;
        assert(0 <= g * nn <= 0x1_0000_0000 * (m * m)) by (nonlinear_arith)
            requires 0 <= g <= 0x1_0000_0000, 0 <= nn <= m * m;
        dot < 0 && l2 * l2 * dd > g * nn
    } else {
        let e = 2 - l2;
        assert(0 <= e * e <= 4) by (nonlinear_arith)
            requires 0 <= e <= 2;
        let g = e * e;
        assert(0 <= g * nn <= 4 * (m * m)) by (nonlinear_arith)
            requires 0 <= g <= 4, 0 <= nn <= m * m;
        dot <= 0 || l2 * l2 * dd < g * nn
    }
}

fn join_for_exec(ax: i64, ay: i64, bx: i64, by: i64, join: LineJoin, limit: u8) -> (r: LineJoin)
    ensures
        r == join_for(ax as int, ay as int, bx as int, by as int, join, limit),
{
    match join {
        LineJoin::Miter => {
            let lim = JOIN_EXACT_LIMIT;
            let small = -lim <= ax && ax <= lim && -lim <= ay && ay <= lim && -lim <= bx && bx <= lim
                && -lim <= by && by <= lim;
            if small && !miter_exceeds_exec(ax, ay, bx, by, limit) {
                LineJoin::Miter
            } else {
                LineJoin::Bevel
            }
        },
        _ => join,
    }
}

/// The join drawn at each joint of a flattened polyline.
pub fn stroke_joins_exec(pts: &Vec<PixelPoint>, closed: bool, join: LineJoin, limit: u8) -> (r: Vec<LineJoin>)
    ensures
        r@ == stroke_joins(pts@, closed, join, limit),
{
    let n = pts.len();
    let count: usize = if closed { n } else if n >= 2 { n - 2 } else { 0 };
    let mut out: Vec<LineJoin> = Vec::with_capacity(count);
    let mut k: usize = 0;
    while k < count
        invariant
            n == pts@.len(),
            count == join_count(n as int, closed),
            k <= count,
            out@.len() == k,
            forall|j: int| 0 <= j < k ==> out@[j] == join_at(pts@, closed, j, join, limit),
        decreases count - k,
    {
        let v = if closed { k } else { k + 1 };
        let pi = if v == 0 { n - 1 } else { v - 1 };
        let ni = if v + 1 == n { 0 } else { v + 1 };
        proof {
            let q0: int = if v == 0 { 0 } else { 1 };
            vstd::arithmetic::div_mod::lemma_fundamental_div_mod_converse(
                v + n - 1,
                n as int,
                q0,
                pi as int,
            );
            let q1: int = if v + 1 == n { 1 } else { 0 };
            vstd::arithmetic::div_mod::lemma_fundamental_div_mod_converse(
                v + 1,
                n as int,
                q1,
                ni as int,
            );
        }
        let prev = pts[pi];
        let cur = pts[v];
        let next = pts[ni];
        out.push(
            join_for_exec(
                cur.x as i64 - prev.x as i64,
                cur.y as i64 - prev.y as i64,
                next.x as i64 - cur.x as i64,
                next.y as i64 - cur.y as i64,
                join,
                limit,
            ),
        );
        k = k + 1;
    }
    assert(out@ =~= stroke_joins(pts@, closed, join, limit));
    out
}

/// With a miter limit of zero no joint is drawn as a miter: every miter falls
/// back to the bevel, so no join reaches further than the bevel would.
pub proof fn lemma_zero_miter_limit_bevels(pts: Seq<PixelPoint>, closed: bool, join: LineJoin)
    ensures
        forall|k: int|
            0 <= k < stroke_joins(pts, closed, join, 0).len() ==> #[trigger] stroke_joins(
                pts,
                closed,
                join,
                0,
            )[k] != LineJoin::Miter,
{
    assert forall|k: int| 0 <= k < stroke_joins(pts, closed, join, 0).len() implies #[trigger] stroke_joins(
        pts,
        closed,
        join,
        0,
    )[k] != LineJoin::Miter by {
        let n = pts.len() as int;
        let v = if closed { k } else { k + 1 };
        let prev = pts[(v + n - 1) % n];
        let cur = pts[v];
        let next = pts[(v + 1) % n];
        let (ax, ay, bx, by) = (cur.x - prev.x, cur.y - prev.y, next.x - cur.x, next.y - cur.y);
        lemma_zero_limit_exceeds(ax, ay, bx, by);
    }
}

proof fn lemma_zero_limit_exceeds(ax: int, ay: int, bx: int, by: int)
    ensures
        miter_exceeds(ax * bx + ay * by, (ax * ax + ay * ay) * (bx * bx + by * by), 0),
{
    let dot = ax * bx + ay * by;
    let nn = (ax * ax + ay * ay) * (bx * bx + by * by);
    if dot > 0 {
        assert(ax != 0 || ay != 0) by (nonlinear_arith)
            requires dot == ax * bx + ay * by, dot > 0;
        assert(bx != 0 || by != 0) by (nonlinear_arith)
            requires dot == ax * bx + ay * by, dot > 0;
        assert(ax * ax + ay * ay > 0) by (nonlinear_arith)
            requires ax != 0 || ay != 0;
        assert(bx * bx + by * by > 0) by (nonlinear_arith)
            requires bx != 0 || by != 0;
        assert(nn > 0) by (nonlinear_arith)
            requires nn == (ax * ax + ay * ay) * (bx * bx + by * by), ax * ax + ay * ay > 0, bx * bx + by * by > 0;
        assert(0 * 0 * dot * dot == 0) by (nonlinear_arith);
        assert(4 * nn > 0);
    }
}

/// The two triangles that cover a rectangle, split along the diagonal from its
/// right-top corner to its left-bottom corner.
pub open spec fn rect_cover(r: PixelRect) -> Seq<Triangle> {
    let lo = r.origin;
    let hi = PixelPoint { x: r.right() as i32, y: r.bottom() as i32 };
    let right_top = PixelPoint { x: hi.x, y: lo.y };
    let left_bottom = PixelPoint { x: lo.x, y: hi.y };
    seq![Triangle { a: lo, b: right_top, c: left_bottom }, Triangle { a: right_top, b: hi, c: left_bottom }]
}

pub fn rect_triangles(rect: PixelRect) -> (r: Vec<Triangle>)
    requires
        rect.wf(),
    ensures
        r@ == rect_cover(rect),
{
    let lo = rect.origin;
    let hi = PixelPoint::new(lo.x + rect.size.width, lo.y + rect.size.height);
    let right_top = PixelPoint::new(hi.x, lo.y);
    let left_bottom = PixelPoint::new(lo.x, hi.y);
    let mut out: Vec<Triangle> = Vec::with_capacity(2);
    out.push(Triangle { a: lo, b: right_top, c: left_bottom });
    out.push(Triangle { a: right_top, b: hi, c: left_bottom });
    assert(out@ =~= rect_cover(rect));
    out
}

/// Twice the signed area of a triangle.
pub open spec fn triangle_area2(t: Triangle) -> int {
    (t.b.x - t.a.x) * (t.c.y - t.a.y) - (t.c.x - t.a.x) * (t.b.y - t.a.y)
}

/// Twice the signed area of a run of triangles, summed.
pub open spec fn triangles_area2(ts: Seq<Triangle>) -> int
    decreases ts.len(),
{
    if ts.len() == 0 {
        0
    } else {
        triangles_area2(ts.drop_last()) + triangle_area2(ts.last())
    }
}

proof fn lemma_fan_step(p: PixelPoint, q: PixelPoint, r: PixelPoint)
    ensures
        triangle_area2(Triangle { a: p, b: q, c: r }) == cross(p, q) + cross(q, r) + cross(r, p),
{
    let (px, py, qx, qy, rx, ry) = (p.x as int, p.y as int, q.x as int, q.y as int, r.x as int, r.y as int);
    assert((qx - px) * (ry - py) - (rx - px) * (qy - py) == (px * qy - qx * py) + (qx * ry - rx * qy) + (
    rx * py - px * ry)) by (nonlinear_arith);
}

proof fn lemma_fan_prefix(pts: Seq<PixelPoint>, k: int)
    requires
        pts.len() >= 3,
        0 <= k <= pts.len() - 2,
    ensures
        triangles_area2(fan(pts).subrange(0, k)) == shoelace(pts, (k + 1) as nat) + cross(
            pts[k + 1],
            pts[0],
        ),
    decreases k,
{
    let f = fan(pts);
    if k == 0 {
        assert(f.subrange(0, 0) =~= Seq::<Triangle>::empty());
        assert(shoelace(pts, 1) == cross(pts[0], pts[1])) by {
            reveal_with_fuel(shoelace, 2);
        }
    } else {
        lemma_fan_prefix(pts, k - 1);
        assert(f.subrange(0, k).drop_last() =~= f.subrange(0, k - 1));
        assert(f.subrange(0, k).last() == Triangle { a: pts[0], b: pts[k], c: pts[k + 1] });
        lemma_fan_step(pts[0], pts[k], pts[k + 1]);
        assert(shoelace(pts, (k + 1) as nat) == shoelace(pts, k as nat) + cross(pts[k], pts[k + 1]));
    }
}

/// The fan of a contour covers exactly its signed area: the signed areas of the
/// fan's triangles add up to the shoelace area of the contour, so overlapping
/// triangles of opposite turn cancel as the winding of the contour does.
pub proof fn lemma_fan_area(pts: Seq<PixelPoint>)
    requires
        pts.len() >= 3,
    ensures
        triangles_area2(fan(pts)) == area2(pts),
{
    let n = pts.len() as int;
    lemma_fan_prefix(pts, n - 2);
    assert(fan(pts).subrange(0, n - 2) =~= fan(pts));
    assert(shoelace(pts, n as nat) == shoelace(pts, (n - 1) as nat) + cross(pts[n - 1], pts[0]));
}

/// The first `k` edge terms of the open polyline `pts`.
pub open spec fn path_sum(pts: Seq<PixelPoint>, k: nat) -> int
    decreases k,
{
    if k == 0 || k >= pts.len() {
        0
    } else {
        path_sum(pts, (k - 1) as nat) + cross(pts[k - 1], pts[k as int])
    }
}

proof fn lemma_shoelace_path(pts: Seq<PixelPoint>, k: nat)
    requires
        k < pts.len(),
    ensures
        shoelace(pts, k) == path_sum(pts, k),
    decreases k,
{
    if k > 0 {
        lemma_shoelace_path(pts, (k - 1) as nat);
    }
}

proof fn lemma_reverse_path_sum(pts: Seq<PixelPoint>, k: nat)
    requires
        k < pts.len(),
    ensures
        path_sum(pts.reverse(), k) == path_sum(pts, (pts.len() - 1 - k) as nat) - path_sum(
            pts,
            (pts.len() - 1) as nat,
        ),
    decreases k,
{
    let n = pts.len() as int;
    let r = pts.reverse();
    if k > 0 {
        lemma_reverse_path_sum(pts, (k - 1) as nat);
        let j = n - 1 - k;
        assert(r[k - 1] == pts[j + 1]);
        assert(r[k as int] == pts[j]);
        assert(cross(pts[j + 1], pts[j]) == -cross(pts[j], pts[j + 1]));
        assert(path_sum(pts, (j + 1) as nat) == path_sum(pts, j as nat) + cross(pts[j], pts[j + 1]));
    }
}

/// Reversing a contour negates its signed area.
pub proof fn lemma_reverse_area(pts: Seq<PixelPoint>)
    requires
        pts.len() >= 1,
    ensures
        area2(pts.reverse()) == -area2(pts),
{
    let n = pts.len() as int;
    let r = pts.reverse();
    lemma_shoelace_path(pts, (n - 1) as nat);
    lemma_shoelace_path(r, (n - 1) as nat);
    lemma_reverse_path_sum(pts, (n - 1) as nat);
    assert(path_sum(pts, 0) == 0);
    assert(r[n - 1] == pts[0]);
    assert(r[0] == pts[n - 1]);
    assert(cross(pts[0], pts[n - 1]) == -cross(pts[n - 1], pts[0]));
    assert(shoelace(pts, n as nat) == shoelace(pts, (n - 1) as nat) + cross(pts[n - 1], pts[0]));
    assert(shoelace(r, n as nat) == shoelace(r, (n - 1) as nat) + cross(r[n - 1], r[0]));
}

/// After orientation a solid contour has a non-negative signed area and a hole a
/// non-positive one, so its fan adds coverage or takes it away accordingly.
pub proof fn lemma_oriented_sign(pts: Seq<PixelPoint>, solidity: Solidity)
    requires
        pts.len() >= 1,
    ensures
        solidity == Solidity::Solid ==> area2(oriented(pts, solidity)) >= 0,
        solidity == Solidity::Hole ==> area2(oriented(pts, solidity)) <= 0,
{
    lemma_reverse_area(pts);
}

} // verus!
