use vstd::prelude::*;

use crate::primitive::{prims_view, PathElement, Primitive, PrimitiveModel, DEFAULT_MITER_LIMIT};
use crate::units::{fits_i32, max_int, min_int, PixelPoint, PixelRect, PixelSize, TexCoords};

verus! {

/// The closed intersection of two rectangles, or `None` when they share no point.
pub open spec fn rect_intersection(a: PixelRect, b: PixelRect) -> Option<PixelRect> {
    let x0 = max_int(a.left(), b.left());
    let x1 = min_int(a.right(), b.right());
    let y0 = max_int(a.top(), b.top());
    let y1 = min_int(a.bottom(), b.bottom());
    if x0 <= x1 && y0 <= y1 {
        Some(
            PixelRect {
                origin: PixelPoint { x: x0 as i32, y: y0 as i32 },
                size: PixelSize { width: (x1 - x0) as i32, height: (y1 - y0) as i32 },
            },
        )
    } else {
        None
    }
}

/// Intersects `rect` with `clip`; the result never reaches outside either of them.
pub fn clip_rect(rect: PixelRect, clip: PixelRect) -> (r: Option<PixelRect>)
    ensures
        r == rect_intersection(rect, clip),
        r is Some ==> r->0.inside(rect) && r->0.inside(clip),
        rect.inside(clip) ==> r == Some(rect),
        r is None <==> rect.disjoint(clip),
{
    let a_right = rect.origin.x as i64 + rect.size.width as i64;
    let a_bottom = rect.origin.y as i64 + rect.size.height as i64;
    let b_right = clip.origin.x as i64 + clip.size.width as i64;
    let b_bottom = clip.origin.y as i64 + clip.size.height as i64;
    let x0 = if rect.origin.x >= clip.origin.x { rect.origin.x } else { clip.origin.x };
    let y0 = if rect.origin.y >= clip.origin.y { rect.origin.y } else { clip.origin.y };
    let x1 = if a_right <= b_right { a_right } else { b_right };
    let y1 = if a_bottom <= b_bottom { a_bottom } else { b_bottom };
    if x0 as i64 <= x1 && y0 as i64 <= y1 {
        let w = x1 - x0 as i64;
        let h = y1 - y0 as i64;
        assert(w <= clip.size.width || w <= rect.size.width);
        Some(PixelRect::new(PixelPoint::new(x0, y0), PixelSize::new(w as i32, h as i32)))
    } else {
        None
    }
}

/// The value `num / den` of the way from `from` to `to`, rounded toward `from`.
pub open spec fn lerp(from: int, to: int, num: int, den: int) -> int {
    if to >= from {
        from + (to - from) * num / den
    } else {
        from - (from - to) * num / den
    }
}

proof fn lemma_lerp_between(from: int, to: int, num: int, den: int)
    requires
        0 <= num <= den,
        den > 0,
    ensures
        min_int(from, to) <= lerp(from, to, num, den) <= max_int(from, to),
        num == 0 ==> lerp(from, to, num, den) == from,
        num == den ==> lerp(from, to, num, den) == to,
{
    let d = if to >= from { to - from } else { from - to };
    assert(0 <= d * num <= d * den) by (nonlinear_arith)
        requires
            0 <= num <= den,
            d >= 0,
    ;
    assert(0 <= d * num / den <= d) by (nonlinear_arith)
        requires
            0 <= d * num <= d * den,
            den > 0,
    ;
    if num == den {
        assert(d * num / den == d) by (nonlinear_arith)
            requires
                num == den,
                den > 0,
        ;
    }
}

fn lerp_exec(from: i64, to: i64, num: i64, den: i64) -> (r: i64)
    requires
        0 <= num <= den,
        den > 0,
        i32::MIN * 2 <= from <= i32::MAX * 2,
        i32::MIN * 2 <= to <= i32::MAX * 2,
        den <= u32::MAX * 2,
    ensures
        r == lerp(from as int, to as int, num as int, den as int),
        min_int(from as int, to as int) <= r <= max_int(from as int, to as int),
{
    proof {
        lemma_lerp_between(from as int, to as int, num as int, den as int);
    }
    if to >= from {
        let d = (to - from) as i128;
        assert(0 <= d * num <= d * den) by (nonlinear_arith)
            requires
                0 <= num <= den,
                d >= 0,
        ;
        assert(d * den <= (u32::MAX * 4) * (u32::MAX * 2)) by (nonlinear_arith)
            requires
                0 <= d <= u32::MAX * 4,
                0 < den <= u32::MAX * 2,
        ;
        let step = d * num as i128 / den as i128;
        (from as i128 + step) as i64
    } else {
        let d = (from - to) as i128;
        assert(0 <= d * num <= d * den) by (nonlinear_arith)
            requires
                0 <= num <= den,
                d >= 0,
        ;
        assert(d * den <= (u32::MAX * 4) * (u32::MAX * 2)) by (nonlinear_arith)
            requires
                0 <= d <= u32::MAX * 4,
                0 < den <= u32::MAX * 2,
        ;
        let step = d * num as i128 / den as i128;
        (from as i128 - step) as i64
    }
}

/// A segment as `(x of start, y of start, x of end, y of end)`.
pub type Seg = (int, int, int, int);

/// A fraction `n / d`, kept with a positive denominator.
pub type Frac = (int, int);

pub open spec fn frac_le(x: Frac, y: Frac) -> bool {
    x.0 * y.1 <= y.0 * x.1
}

/// What is known of the parameter `t` of the points kept: whether some
/// constraint already failed for every `t`, the lowest and the highest `t` allowed.
pub type Window = (bool, Frac, Frac);

/// The window narrowed by the constraint `t * p <= q`.
pub open spec fn narrowed(w: Window, p: int, q: int) -> Window {
    if p == 0 {
        (w.0 && q >= 0, w.1, w.2)
    } else if p < 0 {
        let f = (-q, -p);
        (w.0, if frac_le(f, w.1) { w.1 } else { f }, w.2)
    } else {
        let f = (q, p);
        (w.0, w.1, if frac_le(w.2, f) { w.2 } else { f })
    }
}

/// The window holds the parameter `a / b`.
pub open spec fn admits(w: Window, a: int, b: int) -> bool {
    w.0 && frac_le(w.1, (a, b)) && frac_le((a, b), w.2)
}

/// The parameters of the segment `s`-`e` whose points lie in the closed
/// rectangle `r`: `0 <= t <= 1` narrowed by each of its four edges.
pub open spec fn line_window(s: PixelPoint, e: PixelPoint, r: PixelRect) -> Window {
    let (dx, dy) = (e.x - s.x, e.y - s.y);
    let w1 = narrowed((true, (0, 1), (1, 1)), -dx, s.x - r.left());
    let w2 = narrowed(w1, dx, r.right() - s.x);
    let w3 = narrowed(w2, -dy, s.y - r.top());
    narrowed(w3, dy, r.bottom() - s.y)
}

/// The point of the segment `s`-`e` at parameter `a / b` lies in the closed
/// rectangle `r` (every coordinate scaled by `b`).
pub open spec fn meets_at(s: PixelPoint, e: PixelPoint, r: PixelRect, a: int, b: int) -> bool {
    &&& b > 0 && 0 <= a <= b
    &&& r.left() * b <= b * s.x + a * (e.x - s.x) <= r.right() * b
    &&& r.top() * b <= b * s.y + a * (e.y - s.y) <= r.bottom() * b
}

/// Some point of the segment `s`-`e` lies in the closed rectangle `r`.
pub open spec fn segment_meets(s: PixelPoint, e: PixelPoint, r: PixelRect) -> bool {
    exists|a: int, b: int| #[trigger] meets_at(s, e, r, a, b)
}

/// The part of the segment `p`-`q` inside the closed rectangle `r`: its ends are
/// the points at the lowest and the highest parameter kept, each coordinate
/// rounded toward `p`; `None` when no point of the segment lies in `r`.
pub open spec fn line_clipped(p: PixelPoint, q: PixelPoint, r: PixelRect) -> Option<Seg> {
    let w = line_window(p, q, r);
    if w.0 && frac_le(w.1, w.2) {
        Some(
            (
                lerp(p.x as int, q.x as int, w.1.0, w.1.1),
                lerp(p.y as int, q.y as int, w.1.0, w.1.1),
                lerp(p.x as int, q.x as int, w.2.0, w.2.1),
                lerp(p.y as int, q.y as int, w.2.0, w.2.1),
            ),
        )
    } else {
        None
    }
}

proof fn lemma_frac_trans(x: Frac, y: Frac, z: Frac)
    requires
        x.1 > 0,
        y.1 > 0,
        z.1 > 0,
        frac_le(x, y),
        frac_le(y, z),
    ensures
        frac_le(x, z),
{
    let (x0, x1, y0, y1, z0, z1) = (x.0, x.1, y.0, y.1, z.0, z.1);
    assert(x0 * y1 * z1 <= y0 * x1 * z1) by (nonlinear_arith)
        requires x0 * y1 <= y0 * x1, z1 > 0;
    assert(y0 * z1 * x1 <= z0 * y1 * x1) by (nonlinear_arith)
        requires y0 * z1 <= z0 * y1, x1 > 0;
    assert(y1 * (x0 * z1) <= y1 * (z0 * x1)) by (nonlinear_arith)
        requires x0 * y1 * z1 <= y0 * x1 * z1, y0 * z1 * x1 <= z0 * y1 * x1;
    assert(x0 * z1 <= z0 * x1) by (nonlinear_arith)
        requires y1 * (x0 * z1) <= y1 * (z0 * x1), y1 > 0;
}

proof fn lemma_narrowed(w: Window, p: int, q: int, a: int, b: int)
    requires
        b > 0,
        w.1.1 > 0,
        w.2.1 > 0,
    ensures
        narrowed(w, p, q).1.1 > 0,
        narrowed(w, p, q).2.1 > 0,
        admits(narrowed(w, p, q), a, b) <==> (admits(w, a, b) && a * p <= q * b),
{
    let x: Frac = (a, b);
    if p == 0 {
        assert(a * p == 0) by (nonlinear_arith) requires p == 0;
        assert(q * b >= 0 <==> q >= 0) by (nonlinear_arith) requires b > 0;
    } else if p < 0 {
        let f: Frac = (-q, -p);
        assert(frac_le(f, x) <==> a * p <= q * b) by (nonlinear_arith)
            requires f == (-q, -p), x == (a, b);
        if frac_le(f, w.1) {
            if frac_le(w.1, x) {
                lemma_frac_trans(f, w.1, x);
            }
        } else {
            if frac_le(f, x) {
                lemma_frac_trans(w.1, f, x);
            }
        }
    } else {
        let f: Frac = (q, p);
        assert(frac_le(x, f) <==> a * p <= q * b) by (nonlinear_arith)
            requires f == (q, p), x == (a, b);
        if frac_le(w.2, f) {
            if frac_le(x, w.2) {
                lemma_frac_trans(x, w.2, f);
            }
        } else {
            if frac_le(x, f) {
                lemma_frac_trans(x, f, w.2);
            }
        }
    }
}

/// The window of a segment holds exactly the parameters of its points in `r`.
proof fn lemma_line_window(s: PixelPoint, e: PixelPoint, r: PixelRect, a: int, b: int)
    requires
        b > 0,
    ensures
        line_window(s, e, r).1.1 > 0,
        line_window(s, e, r).2.1 > 0,
        admits(line_window(s, e, r), a, b) <==> meets_at(s, e, r, a, b),
{
    let (dx, dy) = (e.x - s.x, e.y - s.y);
    let w0: Window = (true, (0, 1), (1, 1));
    let w1 = narrowed(w0, -dx, s.x - r.left());
    let w2 = narrowed(w1, dx, r.right() - s.x);
    let w3 = narrowed(w2, -dy, s.y - r.top());
    lemma_narrowed(w0, -dx, s.x - r.left(), a, b);
    lemma_narrowed(w1, dx, r.right() - s.x, a, b);
    lemma_narrowed(w2, -dy, s.y - r.top(), a, b);
    lemma_narrowed(w3, dy, r.bottom() - s.y, a, b);
    assert(admits(w0, a, b) <==> 0 <= a <= b) by (nonlinear_arith)
        requires w0 == (true, (0int, 1int), (1int, 1int)), b > 0;
    let (sx, sy, l, rr, t, bt) = (s.x as int, s.y as int, r.left(), r.right(), r.top(), r.bottom());
    assert(a * (-dx) <= (sx - l) * b <==> l * b <= b * sx + a * dx) by (nonlinear_arith);
    assert(a * dx <= (rr - sx) * b <==> b * sx + a * dx <= rr * b) by (nonlinear_arith);
    assert(a * (-dy) <= (sy - t) * b <==> t * b <= b * sy + a * dy) by (nonlinear_arith);
    assert(a * dy <= (bt - sy) * b <==> b * sy + a * dy <= bt * b) by (nonlinear_arith);
}

/// A value rounded toward `from` from a point `a / b` of the way to `to` stays in
/// any integer interval that holds the exact point.
proof fn lemma_lerp_in(from: int, to: int, a: int, b: int, lo: int, hi: int)
    requires
        0 <= a <= b,
        b > 0,
        lo * b <= b * from + a * (to - from) <= hi * b,
    ensures
        lo <= lerp(from, to, a, b) <= hi,
{
    let d = if to >= from { to - from } else { from - to };
    assert(d * a >= 0) by (nonlinear_arith) requires d >= 0, a >= 0;
    vstd::arithmetic::div_mod::lemma_fundamental_div_mod(d * a, b);
    vstd::arithmetic::div_mod::lemma_mod_pos_bound(d * a, b);
    let k = d * a / b;
    let m = d * a % b;
    let v = lerp(from, to, a, b);
    if to >= from {
        assert(v == from + k);
        assert(b * v == b * from + a * (to - from) - m) by (nonlinear_arith)
            requires v == from + k, d * a == b * k + m, d == to - from;
        assert(v <= hi) by (nonlinear_arith) requires b * v <= hi * b, b > 0;
        assert(v >= lo) by (nonlinear_arith) requires b * v > lo * b - b, b > 0;
    } else {
        assert(v == from - k);
        assert(b * v == b * from + a * (to - from) + m) by (nonlinear_arith)
            requires v == from - k, d * a == b * k + m, d == from - to;
        assert(v >= lo) by (nonlinear_arith) requires b * v >= lo * b, b > 0;
        assert(v <= hi) by (nonlinear_arith) requires b * v < hi * b + b, b > 0;
    }
}

/// A segment is dropped exactly when none of its points lies in `r`; what is
/// kept ends inside `r`, and a segment inside `r` is kept as it is.
pub proof fn lemma_line_clipped(p: PixelPoint, q: PixelPoint, r: PixelRect)
    ensures
        line_clipped(p, q, r) is None <==> !segment_meets(p, q, r),
        line_clipped(p, q, r) is Some ==> {
            let s = line_clipped(p, q, r)->0;
            &&& r.left() <= s.0 <= r.right() && r.left() <= s.2 <= r.right()
            &&& r.top() <= s.1 <= r.bottom() && r.top() <= s.3 <= r.bottom()
            &&& fits_i32(s.0) && fits_i32(s.1) && fits_i32(s.2) && fits_i32(s.3)
        },
        line_clipped(p, q, r) is Some ==> {
            let w = line_window(p, q, r);
            &&& 0 <= w.1.0 <= w.1.1 && 0 < w.1.1
            &&& 0 <= w.2.0 <= w.2.1 && 0 < w.2.1
        },
        r.contains(p) && r.contains(q) ==> line_clipped(p, q, r) == Some(
            (p.x as int, p.y as int, q.x as int, q.y as int),
        ),
{
    let w = line_window(p, q, r);
    lemma_line_window(p, q, r, 0, 1);
    let (lo, hi) = (w.1, w.2);
    if w.0 && frac_le(lo, hi) {
        lemma_line_window(p, q, r, lo.0, lo.1);
        lemma_line_window(p, q, r, hi.0, hi.1);
        assert(frac_le(lo, lo) && frac_le(hi, hi));
        assert(meets_at(p, q, r, lo.0, lo.1));
        assert(meets_at(p, q, r, hi.0, hi.1));
        let (px, py, qx, qy) = (p.x as int, p.y as int, q.x as int, q.y as int);
        lemma_lerp_in(px, qx, lo.0, lo.1, r.left(), r.right());
        lemma_lerp_in(py, qy, lo.0, lo.1, r.top(), r.bottom());
        lemma_lerp_in(px, qx, hi.0, hi.1, r.left(), r.right());
        lemma_lerp_in(py, qy, hi.0, hi.1, r.top(), r.bottom());
        lemma_lerp_between(px, qx, lo.0, lo.1);
        lemma_lerp_between(py, qy, lo.0, lo.1);
        lemma_lerp_between(px, qx, hi.0, hi.1);
        lemma_lerp_between(py, qy, hi.0, hi.1);
        if r.contains(p) && r.contains(q) {
            lemma_line_window(p, q, r, 1, 1);
            assert(meets_at(p, q, r, 0, 1));
            assert(meets_at(p, q, r, 1, 1));
            assert(lo.0 == 0) by (nonlinear_arith)
                requires lo.0 * 1 <= 0 * lo.1, lo.0 >= 0;
            assert(hi.0 == hi.1) by (nonlinear_arith)
                requires 1 * hi.1 <= hi.0 * 1, hi.0 <= hi.1;
            lemma_lerp_between(px, qx, 0, lo.1);
            lemma_lerp_between(py, qy, 0, lo.1);
            lemma_lerp_between(px, qx, hi.0, hi.1);
            lemma_lerp_between(py, qy, hi.0, hi.1);
        }
    } else {
        if r.contains(p) && r.contains(q) {
            assert(meets_at(p, q, r, 0, 1));
        }
        assert forall|a: int, b: int| !#[trigger] meets_at(p, q, r, a, b) by {
            if meets_at(p, q, r, a, b) {
                lemma_line_window(p, q, r, a, b);
                lemma_frac_trans(lo, (a, b), hi);
            }
        }
    }
}

/// A window held in machine integers: numerators and denominators stay small.
pub open spec fn window_of(w: (bool, i128, i128, i128, i128)) -> Window {
    (w.0, (w.1 as int, w.2 as int), (w.3 as int, w.4 as int))
}

pub open spec fn window_small(w: (bool, i128, i128, i128, i128)) -> bool {
    &&& -0x4_0000_0000 <= w.1 <= 0x4_0000_0000 && 0 < w.2 <= 0xFFFF_FFFF
    &&& -0x4_0000_0000 <= w.3 <= 0x4_0000_0000 && 0 < w.4 <= 0xFFFF_FFFF
}

fn frac_le_exec(n1: i128, d1: i128, n2: i128, d2: i128) -> (r: bool)
    requires
        -0x4_0000_0000 <= n1 <= 0x4_0000_0000,
        -0x4_0000_0000 <= n2 <= 0x4_0000_0000,
        0 < d1 <= 0xFFFF_FFFF,
        0 < d2 <= 0xFFFF_FFFF,
    ensures
        r == frac_le((n1 as int, d1 as int), (n2 as int, d2 as int)),
{
    assert(-0x4_0000_0000 * 0xFFFF_FFFF <= n1 * d2 <= 0x4_0000_0000 * 0xFFFF_FFFF) by (nonlinear_arith)
        requires -0x4_0000_0000 <= n1 <= 0x4_0000_0000, 0 < d2 <= 0xFFFF_FFFF;
    assert(-0x4_0000_0000 * 0xFFFF_FFFF <= n2 * d1 <= 0x4_0000_0000 * 0xFFFF_FFFF) by (nonlinear_arith)
        requires -0x4_0000_0000 <= n2 <= 0x4_0000_0000, 0 < d1 <= 0xFFFF_FFFF;
    n1 * d2 <= n2 * d1
}

fn narrowed_exec(w: (bool, i128, i128, i128, i128), p: i128, q: i128) -> (r: (bool, i128, i128, i128, i128))
    requires
        window_small(w),
        -0xFFFF_FFFF <= p <= 0xFFFF_FFFF,
        -0x4_0000_0000 <= q <= 0x4_0000_0000,
    ensures
        window_of(r) == narrowed(window_of(w), p as int, q as int),
        window_small(r),
{
    if p == 0 {
        (w.0 && q >= 0, w.1, w.2, w.3, w.4)
    } else if p < 0 {
        if frac_le_exec(-q, -p, w.1, w.2) {
            w
        } else {
            (w.0, -q, -p, w.3, w.4)
        }
    } else {
        if frac_le_exec(w.3, w.4, q, p) {
            w
        } else {
            (w.0, w.1, w.2, q, p)
        }
    }
}

/// Clips the segment from `start` to `end` to the closed rectangle `clip`. It is
/// dropped exactly when none of its points lies in `clip`; otherwise its ends
/// move to the first and last points inside, rounded toward `start`.
pub fn clip_line(start: PixelPoint, end: PixelPoint, clip: PixelRect) -> (r: Option<
    (PixelPoint, PixelPoint),
>)
    ensures
        r is None <==> !segment_meets(start, end, clip),
        r is Some <==> line_clipped(start, end, clip) is Some,
        r is Some ==> line_clipped(start, end, clip) == Some(
            ((r->0).0.x as int, (r->0).0.y as int, (r->0).1.x as int, (r->0).1.y as int),
        ),
        r is Some ==> clip.contains((r->0).0) && clip.contains((r->0).1),
        clip.contains(start) && clip.contains(end) ==> r == Some((start, end)),
{
    proof {
        lemma_line_clipped(start, end, clip);
    }
    let sx = start.x as i128;
    let sy = start.y as i128;
    let dx = end.x as i128 - sx;
    let dy = end.y as i128 - sy;
    let left = clip.origin.x as i128;
    let top = clip.origin.y as i128;
    let right = left + clip.size.width as i128;
    let bottom = top + clip.size.height as i128;
    let w0: (bool, i128, i128, i128, i128) = (true, 0, 1, 1, 1);
    let w1 = narrowed_exec(w0, -dx, sx - left);
    let w2 = narrowed_exec(w1, dx, right - sx);
    let w3 = narrowed_exec(w2, -dy, sy - top);
    let w = narrowed_exec(w3, dy, bottom - sy);
    if !(w.0 && frac_le_exec(w.1, w.2, w.3, w.4)) {
        return None;
    }
    let x0 = lerp_exec(start.x as i64, end.x as i64, w.1 as i64, w.2 as i64);
    let y0 = lerp_exec(start.y as i64, end.y as i64, w.1 as i64, w.2 as i64);
    let x1 = lerp_exec(start.x as i64, end.x as i64, w.3 as i64, w.4 as i64);
    let y1 = lerp_exec(start.y as i64, end.y as i64, w.3 as i64, w.4 as i64);
    Some((PixelPoint::new(x0 as i32, y0 as i32), PixelPoint::new(x1 as i32, y1 as i32)))
}

/// Texture coordinates narrowed in proportion to the part `c` kept of `rect`.
pub open spec fn uv_remapped(uv: TexCoords, rect: PixelRect, c: PixelRect) -> TexCoords {
    let w = rect.size.width as int;
    let h = rect.size.height as int;
    TexCoords {
        u1: if w > 0 { lerp(uv.u1 as int, uv.u2 as int, c.left() - rect.left(), w) as i32 } else { uv.u1 },
        u2: if w > 0 { lerp(uv.u1 as int, uv.u2 as int, c.right() - rect.left(), w) as i32 } else { uv.u2 },
        v1: if h > 0 { lerp(uv.v1 as int, uv.v2 as int, c.top() - rect.top(), h) as i32 } else { uv.v1 },
        v2: if h > 0 { lerp(uv.v1 as int, uv.v2 as int, c.bottom() - rect.top(), h) as i32 } else { uv.v2 },
    }
}

pub open spec fn image_clipped(rect: PixelRect, uv: TexCoords, clip: PixelRect) -> Option<
    (PixelRect, TexCoords),
> {
    match rect_intersection(rect, clip) {
        Some(c) => Some((c, uv_remapped(uv, rect, c))),
        None => None,
    }
}

/// Clips an image's rectangle and narrows its texture coordinates to match, so
/// that the visible part samples the texture exactly where it did before.
pub fn clip_image(rect: PixelRect, uv: TexCoords, clip: PixelRect) -> (r: Option<
    (PixelRect, TexCoords),
>)
    ensures
        r == image_clipped(rect, uv, clip),
        rect.inside(clip) ==> r == Some((rect, uv)),
        r is None <==> rect.disjoint(clip),
{
    match clip_rect(rect, clip) {
        None => None,
        Some(c) => {
            let w = rect.size.width as i64;
            let h = rect.size.height as i64;
            let dx0 = c.origin.x as i64 - rect.origin.x as i64;
            let dx1 = dx0 + c.size.width as i64;
            let dy0 = c.origin.y as i64 - rect.origin.y as i64;
            let dy1 = dy0 + c.size.height as i64;
            let (u1, u2) = if w > 0 {
                (
                    lerp_exec(uv.u1 as i64, uv.u2 as i64, dx0, w) as i32,
                    lerp_exec(uv.u1 as i64, uv.u2 as i64, dx1, w) as i32,
                )
            } else {
                (uv.u1, uv.u2)
            };
            let (v1, v2) = if h > 0 {
                (
                    lerp_exec(uv.v1 as i64, uv.v2 as i64, dy0, h) as i32,
                    lerp_exec(uv.v1 as i64, uv.v2 as i64, dy1, h) as i32,
                )
            } else {
                (uv.v1, uv.v2)
            };
            proof {
                if rect.inside(clip) {
                    if w > 0 {
                        lemma_lerp_between(uv.u1 as int, uv.u2 as int, 0, w as int);
                        lemma_lerp_between(uv.u1 as int, uv.u2 as int, w as int, w as int);
                    }
                    if h > 0 {
                        lemma_lerp_between(uv.v1 as int, uv.v2 as int, 0, h as int);
                        lemma_lerp_between(uv.v1 as int, uv.v2 as int, h as int, h as int);
                    }
                }
            }
            Some((c, TexCoords { u1, v1, u2, v2 }))
        },
    }
}

/// A box `(min x, min y, max x, max y)`.
pub type Bounds = (int, int, int, int);

pub open spec fn point_bounds(p: PixelPoint) -> Bounds {
    (p.x as int, p.y as int, p.x as int, p.y as int)
}

pub open spec fn union_bounds(a: Option<Bounds>, b: Option<Bounds>) -> Option<Bounds> {
    match (a, b) {
        (None, _) => b,
        (_, None) => a,
        (Some(x), Some(y)) => Some(
            (min_int(x.0, y.0), min_int(x.1, y.1), max_int(x.2, y.2), max_int(x.3, y.3)),
        ),
    }
}

/// The box around the points of one element, control points included.
pub open spec fn element_bounds(e: PathElement) -> Option<Bounds> {
    match e {
        PathElement::MoveTo(p) => Some(point_bounds(p)),
        PathElement::LineTo(p) => Some(point_bounds(p)),
        PathElement::BezierTo(c1, c2, p) => union_bounds(
            union_bounds(Some(point_bounds(c1)), Some(point_bounds(c2))),
            Some(point_bounds(p)),
        ),
        _ => None,
    }
}

/// The box around every point of a path, control points included; a Bezier
/// curve stays inside the hull of its control points, so inside this box.
/// `None` when the path has no point.
pub open spec fn path_bounds(path: Seq<PathElement>) -> Option<Bounds>
    decreases path.len(),
{
    if path.len() == 0 {
        None
    } else {
        union_bounds(path_bounds(path.drop_last()), element_bounds(path.last()))
    }
}

/// How far stroke geometry can reach from its path: a join reaches at most
/// `miter_limit` half-widths, a cap less than two.
pub open spec fn stroke_reach(thickness: i32, miter_limit: u8) -> int {
    let t = if thickness >= 0 { thickness as int } else { -thickness };
    t * max_int(miter_limit as int, 2)
}

/// What clipping does with a stroked or filled path whose geometry reaches
/// `reach` beyond its points.
pub enum PathClip {
    /// The geometry lies inside the clip rectangle: keep the primitive as it is.
    Keep,
    /// The geometry misses the clip rectangle, or there is none: drop it.
    Drop,
    /// The geometry crosses the border: keep it under a clip rectangle node.
    Wrap,
}

pub open spec fn path_clip(path: Seq<PathElement>, reach: int, r: PixelRect) -> PathClip {
    match path_bounds(path) {
        None => PathClip::Drop,
        Some(b) => {
            let (x0, y0, x1, y1) = (b.0 - reach, b.1 - reach, b.2 + reach, b.3 + reach);
            if r.left() <= x0 && x1 <= r.right() && r.top() <= y0 && y1 <= r.bottom() {
                PathClip::Keep
            } else if max_int(x0, r.left()) > min_int(x1, r.right()) || max_int(y0, r.top())
                > min_int(y1, r.bottom()) {
                PathClip::Drop
            } else {
                PathClip::Wrap
            }
        },
    }
}

/// `m` as it comes out of a path decision.
pub open spec fn apply_path_clip(d: PathClip, m: PrimitiveModel, r: PixelRect) -> Seq<
    PrimitiveModel,
> {
    match d {
        PathClip::Keep => seq![m],
        PathClip::Drop => Seq::empty(),
        PathClip::Wrap => seq![PrimitiveModel::ClipRect { rect: r, primitives: seq![m] }],
    }
}

/// One primitive clipped to `r`: nothing, or the one primitive that stands for it.
pub open spec fn clip_model(m: PrimitiveModel, r: PixelRect) -> Seq<PrimitiveModel>
    decreases m,
{
    match m {
        PrimitiveModel::Line { color, thickness, start_point, end_point } => match line_clipped(
            start_point,
            end_point,
            r,
        ) {
            Some(s) => seq![
                PrimitiveModel::Line {
                    color,
                    thickness,
                    start_point: PixelPoint { x: s.0 as i32, y: s.1 as i32 },
                    end_point: PixelPoint { x: s.2 as i32, y: s.3 as i32 },
                },
            ],
            None => Seq::empty(),
        },
        PrimitiveModel::Rectangle { color, rect } => match rect_intersection(rect, r) {
            Some(c) => seq![PrimitiveModel::Rectangle { color, rect: c }],
            None => Seq::empty(),
        },
        PrimitiveModel::Image { resource_key, rect, uv } => match image_clipped(rect, uv, r) {
            Some(c) => seq![PrimitiveModel::Image { resource_key, rect: c.0, uv: c.1 }],
            None => Seq::empty(),
        },
        PrimitiveModel::Text { resource_key, size, color, position, clipping_rect, text } =>
            match rect_intersection(clipping_rect, r) {
            Some(c) => seq![
                PrimitiveModel::Text { resource_key, size, color, position, clipping_rect: c, text },
            ],
            None => Seq::empty(),
        },
        PrimitiveModel::Stroke { path, thickness, .. } => apply_path_clip(
            path_clip(path, stroke_reach(thickness, DEFAULT_MITER_LIMIT), r),
            m,
            r,
        ),
        PrimitiveModel::StrokeStyled { path, thickness, style, .. } => apply_path_clip(
            path_clip(path, stroke_reach(thickness, style.miter_limit), r),
            m,
            r,
        ),
        PrimitiveModel::Fill { path, .. } => apply_path_clip(path_clip(path, 0, r), m, r),
        PrimitiveModel::ClipRect { rect, primitives } => match rect_intersection(rect, r) {
            None => Seq::empty(),
            Some(c) => {
                let kids = clip_models(primitives, c);
                if kids.len() == 0 {
                    Seq::empty()
                } else {
                    seq![PrimitiveModel::ClipRect { rect: c, primitives: kids }]
                }
            },
        },
        PrimitiveModel::ClipPath { path, primitives } => {
            let kids = clip_models(primitives, r);
            if kids.len() == 0 {
                Seq::empty()
            } else {
                seq![PrimitiveModel::ClipPath { path, primitives: kids }]
            }
        },
        PrimitiveModel::Transform { primitives, .. } => if primitives.len() == 0
            || r.size.width < 0 || r.size.height < 0 {
            Seq::empty()
        } else {
            seq![PrimitiveModel::ClipRect { rect: r, primitives: seq![m] }]
        },
        PrimitiveModel::Composite { color, primitives } => {
            let kids = clip_models(primitives, r);
            if kids.len() == 0 {
                Seq::empty()
            } else {
                seq![PrimitiveModel::Composite { color, primitives: kids }]
            }
        },
    }
}

/// A sequence of primitives clipped to `r`, in order.
pub open spec fn clip_models(s: Seq<PrimitiveModel>, r: PixelRect) -> Seq<PrimitiveModel>
    decreases s,
{
    if s.len() == 0 {
        Seq::empty()
    } else {
        clip_models(s.subrange(0, s.len() - 1), r) + clip_model(s[s.len() - 1], r)
    }
}

pub open spec fn bounds_of(b: Option<(i32, i32, i32, i32)>) -> Option<Bounds> {
    match b {
        Some(t) => Some((t.0 as int, t.1 as int, t.2 as int, t.3 as int)),
        None => None,
    }
}

fn union_bounds_exec(a: Option<(i32, i32, i32, i32)>, b: Option<(i32, i32, i32, i32)>) -> (r: Option<
    (i32, i32, i32, i32),
>)
    ensures
        bounds_of(r) == union_bounds(bounds_of(a), bounds_of(b)),
{
    match (a, b) {
        (None, _) => b,
        (_, None) => a,
        (Some(x), Some(y)) => Some(
            (
                if x.0 <= y.0 { x.0 } else { y.0 },
                if x.1 <= y.1 { x.1 } else { y.1 },
                if x.2 >= y.2 { x.2 } else { y.2 },
                if x.3 >= y.3 { x.3 } else { y.3 },
            ),
        ),
    }
}

fn element_bounds_exec(e: PathElement) -> (r: Option<(i32, i32, i32, i32)>)
    ensures
        bounds_of(r) == element_bounds(e),
{
    match e {
        PathElement::MoveTo(p) => Some((p.x, p.y, p.x, p.y)),
        PathElement::LineTo(p) => Some((p.x, p.y, p.x, p.y)),
        PathElement::BezierTo(c1, c2, p) => union_bounds_exec(
            union_bounds_exec(Some((c1.x, c1.y, c1.x, c1.y)), Some((c2.x, c2.y, c2.x, c2.y))),
            Some((p.x, p.y, p.x, p.y)),
        ),
        _ => None,
    }
}

/// The box around every point of `path`, control points included.
pub fn path_bounds_exec(path: &Vec<PathElement>) -> (r: Option<(i32, i32, i32, i32)>)
    ensures
        bounds_of(r) == path_bounds(path@),
{
    let mut acc: Option<(i32, i32, i32, i32)> = None;
    let mut i: usize = 0;
    while i < path.len()
        invariant
            i <= path@.len(),
            bounds_of(acc) == path_bounds(path@.subrange(0, i as int)),
        decreases path@.len() - i,
    {
        let e = element_bounds_exec(path[i]);
        acc = union_bounds_exec(acc, e);
        assert(path@.subrange(0, i + 1).drop_last() =~= path@.subrange(0, i as int));
        i = i + 1;
    }
    assert(path@.subrange(0, path@.len() as int) =~= path@);
    acc
}

fn path_clip_exec(path: &Vec<PathElement>, reach: i128, r: PixelRect) -> (d: PathClip)
    requires
        0 <= reach <= 0x1_0000_0000_0000_0000,
    ensures
        d == path_clip(path@, reach as int, r),
{
    match path_bounds_exec(path) {
        None => PathClip::Drop,
        Some(b) => {
            let x0 = b.0 as i128 - reach;
            let y0 = b.1 as i128 - reach;
            let x1 = b.2 as i128 + reach;
            let y1 = b.3 as i128 + reach;
            let left = r.origin.x as i128;
            let top = r.origin.y as i128;
            let right = left + r.size.width as i128;
            let bottom = top + r.size.height as i128;
            if left <= x0 && x1 <= right && top <= y0 && y1 <= bottom {
                PathClip::Keep
            } else if (if x0 >= left { x0 } else { left }) > (if x1 <= right { x1 } else { right })
                || (if y0 >= top { y0 } else { top }) > (if y1 <= bottom { y1 } else { bottom }) {
                PathClip::Drop
            } else {
                PathClip::Wrap
            }
        },
    }
}

fn stroke_reach_exec(thickness: i32, miter_limit: u8) -> (r: i128)
    ensures
        r == stroke_reach(thickness, miter_limit),
        0 <= r <= 0x1_0000_0000_0000_0000,
{
    let t: i128 = if thickness >= 0 { thickness as i128 } else { -(thickness as i128) };
    let m: i128 = if miter_limit >= 2 { miter_limit as i128 } else { 2 };
    assert(0 <= t * m <= 0x8000_0000 * 0xFFFF_FFFF) by (nonlinear_arith)
        requires
            0 <= t <= 0x8000_0000,
            2 <= m <= 0xFF,
    ;
    t * m
}

/// The model of what a clip of one primitive hands back.
pub open spec fn opt_view(o: Option<Primitive>) -> Seq<PrimitiveModel> {
    match o {
        Some(q) => seq![q@],
        None => Seq::empty(),
    }
}

fn wrapped(p: Primitive, r: PixelRect) -> (w: Primitive)
    ensures
        w@ == (PrimitiveModel::ClipRect { rect: r, primitives: seq![p@] }),
{
    let ghost pm = p@;
    let w = Primitive::ClipRect { rect: r, primitives: vec![p] };
    proof {
        crate::primitive::lemma_children_view(w);
        assert(w@->ClipRect_primitives =~= seq![pm]);
    }
    w
}

fn apply_path_clip_exec(d: PathClip, p: Primitive, r: PixelRect) -> (out: Option<Primitive>)
    ensures
        opt_view(out) == apply_path_clip(d, p@, r),
{
    match d {
        PathClip::Keep => Some(p),
        PathClip::Drop => None,
        PathClip::Wrap => Some(wrapped(p, r)),
    }
}

fn clip_primitive(p: Primitive, r: PixelRect) -> (out: Option<Primitive>)
    ensures
        opt_view(out) == clip_model(p@, r),
    decreases p,
{
    proof {
        crate::primitive::lemma_children_view(p);
    }
    let ghost pm = p@;
    match p {
        Primitive::Line { color, thickness, start_point, end_point } => {
            match clip_line(start_point, end_point, r) {
                Some((a, b)) => Some(
                    Primitive::Line { color, thickness, start_point: a, end_point: b },
                ),
                None => None,
            }
        },
        Primitive::Rectangle { color, rect } => match clip_rect(rect, r) {
            Some(c) => Some(Primitive::Rectangle { color, rect: c }),
            None => None,
        },
        Primitive::Image { resource_key, rect, uv } => match clip_image(rect, uv, r) {
            Some((c, cuv)) => Some(Primitive::Image { resource_key, rect: c, uv: cuv }),
            None => None,
        },
        Primitive::Text { resource_key, size, color, position, clipping_rect, text } => {
            match clip_rect(clipping_rect, r) {
                Some(c) => Some(
                    Primitive::Text { resource_key, size, color, position, clipping_rect: c, text },
                ),
                None => None,
            }
        },
        Primitive::Stroke { path, thickness, brush } => {
            let d = path_clip_exec(&path, stroke_reach_exec(thickness, DEFAULT_MITER_LIMIT), r);
            apply_path_clip_exec(d, Primitive::Stroke { path, thickness, brush }, r)
        },
        Primitive::StrokeStyled { path, thickness, brush, style } => {
            let d = path_clip_exec(&path, stroke_reach_exec(thickness, style.miter_limit), r);
            apply_path_clip_exec(d, Primitive::StrokeStyled { path, thickness, brush, style }, r)
        },
        Primitive::Fill { path, brush } => {
            let d = path_clip_exec(&path, 0, r);
            apply_path_clip_exec(d, Primitive::Fill { path, brush }, r)
        },
        Primitive::ClipRect { rect, primitives } => match clip_rect(rect, r) {
            None => None,
            Some(c) => {
                let kids = clip_primitives(primitives, c);
                if kids.len() == 0 {
                    None
                } else {
                    let q = Primitive::ClipRect { rect: c, primitives: kids };
                    proof {
                        crate::primitive::lemma_children_view(q);
                    }
                    Some(q)
                }
            },
        },
        Primitive::ClipPath { path, primitives } => {
            let kids = clip_primitives(primitives, r);
            if kids.len() == 0 {
                None
            } else {
                let q = Primitive::ClipPath { path, primitives: kids };
                proof {
                    crate::primitive::lemma_children_view(q);
                }
                Some(q)
            }
        },
        Primitive::Transform { transform, primitives } => {
            if primitives.len() == 0 || r.size.width < 0 || r.size.height < 0 {
                None
            } else {
                Some(wrapped(Primitive::Transform { transform, primitives }, r))
            }
        },
        Primitive::Composite { color, primitives } => {
            let kids = clip_primitives(primitives, r);
            if kids.len() == 0 {
                None
            } else {
                let q = Primitive::Composite { color, primitives: kids };
                proof {
                    crate::primitive::lemma_children_view(q);
                }
                Some(q)
            }
        },
    }
}

fn clip_primitives(v: Vec<Primitive>, r: PixelRect) -> (out: Vec<Primitive>)
    ensures
        prims_view(out@) == clip_models(prims_view(v@), r),
    decreases v,
{
    let ghost before = v@;
    let mut items = v;
    let mut out: Vec<Primitive> = Vec::new();
    let n = items.len();
    let mut i: usize = 0;
    while i < n
        invariant
            before == v@,
            n == before.len(),
            items@.len() == n,
            i <= n,
            forall|j: int| i <= j < n ==> items@[j] == before[j],
            prims_view(out@) == clip_models(prims_view(before).subrange(0, i as int), r),
        decreases n - i,
    {
        let mut p = Primitive::Composite {
            color: crate::units::Color { r: 0, g: 0, b: 0, a: 0 },
            primitives: Vec::new(),
        };
        items.set_and_swap(i, &mut p);
        assert(p == v@[i as int]);
        assert(decreases_to!(v => p));
        let ghost prev = out@;
        match clip_primitive(p, r) {
            Some(q) => out.push(q),
            None => {},
        }
        proof {
            let whole = prims_view(before);
            assert(whole.subrange(0, i + 1).subrange(0, i as int) =~= whole.subrange(0, i as int));
            assert(whole.subrange(0, i + 1)[i as int] == before[i as int]@);
            assert(prims_view(out@) =~= prims_view(prev) + clip_model(before[i as int]@, r));
        }
        i = i + 1;
    }
    assert(prims_view(before).subrange(0, n as int) =~= prims_view(before));
    out
}

/// Cutting geometry to a rectangle.
pub trait Clipping: Sized {
    /// `self` is what clipping `before` to `rect` leaves.
    spec fn is_clip_of(&self, before: Self, rect: PixelRect) -> bool;

    fn clip(self, rect: PixelRect) -> (r: Self)
        ensures
            r.is_clip_of(self, rect),
    ;
}

impl Clipping for Vec<Primitive> {
    open spec fn is_clip_of(&self, before: Vec<Primitive>, rect: PixelRect) -> bool {
        prims_view(self@) == clip_models(prims_view(before@), rect)
    }

    fn clip(self, rect: PixelRect) -> (r: Vec<Primitive>) {
        clip_primitives(self, rect)
    }
}

/// Everything that `m` draws stays inside `r`: leaves lie inside it, and a clip
/// rectangle node confines its subtree to a rectangle inside it.
pub open spec fn confined(m: PrimitiveModel, r: PixelRect) -> bool
    decreases m,
{
    match m {
        PrimitiveModel::Line { start_point, end_point, .. } => r.contains(start_point) && r.contains(
            end_point,
        ),
        PrimitiveModel::Rectangle { rect, .. } => rect.inside(r),
        PrimitiveModel::Image { rect, .. } => rect.inside(r),
        PrimitiveModel::Text { clipping_rect, .. } => clipping_rect.inside(r),
        PrimitiveModel::Stroke { path, thickness, .. } => path_clip(
            path,
            stroke_reach(thickness, DEFAULT_MITER_LIMIT),
            r,
        ) is Keep,
        PrimitiveModel::StrokeStyled { path, thickness, style, .. } => path_clip(
            path,
            stroke_reach(thickness, style.miter_limit),
            r,
        ) is Keep,
        PrimitiveModel::Fill { path, .. } => path_clip(path, 0, r) is Keep,
        PrimitiveModel::ClipRect { rect, .. } => rect.inside(r),
        PrimitiveModel::ClipPath { primitives, .. } => forall|i: int|
            0 <= i < primitives.len() ==> confined(#[trigger] primitives[i], r),
        PrimitiveModel::Transform { .. } => false,
        PrimitiveModel::Composite { primitives, .. } => forall|i: int|
            0 <= i < primitives.len() ==> confined(#[trigger] primitives[i], r),
    }
}

/// `m` lies inside `r` as it stands, so that clipping has nothing to cut; a
/// structural node must hold something, and a transformed subtree never counts.
pub open spec fn fully_inside(m: PrimitiveModel, r: PixelRect) -> bool
    decreases m,
{
    match m {
        PrimitiveModel::ClipRect { rect, primitives } => rect.inside(r) && primitives.len() > 0
            && forall|i: int| 0 <= i < primitives.len() ==> fully_inside(#[trigger] primitives[i], rect),
        PrimitiveModel::ClipPath { primitives, .. } => primitives.len() > 0 && forall|i: int|
            0 <= i < primitives.len() ==> fully_inside(#[trigger] primitives[i], r),
        PrimitiveModel::Composite { primitives, .. } => primitives.len() > 0 && forall|i: int|
            0 <= i < primitives.len() ==> fully_inside(#[trigger] primitives[i], r),
        PrimitiveModel::Transform { .. } => false,
        _ => confined(m, r),
    }
}

/// Nothing of `m` can reach `r`.
pub open spec fn fully_outside(m: PrimitiveModel, r: PixelRect) -> bool
    decreases m,
{
    match m {
        PrimitiveModel::Line { start_point, end_point, .. } => !segment_meets(
            start_point,
            end_point,
            r,
        ),
        PrimitiveModel::Rectangle { rect, .. } => rect.disjoint(r),
        PrimitiveModel::Image { rect, .. } => rect.disjoint(r),
        PrimitiveModel::Text { clipping_rect, .. } => clipping_rect.disjoint(r),
        PrimitiveModel::Stroke { path, thickness, .. } => path_clip(
            path,
            stroke_reach(thickness, DEFAULT_MITER_LIMIT),
            r,
        ) is Drop,
        PrimitiveModel::StrokeStyled { path, thickness, style, .. } => path_clip(
            path,
            stroke_reach(thickness, style.miter_limit),
            r,
        ) is Drop,
        PrimitiveModel::Fill { path, .. } => path_clip(path, 0, r) is Drop,
        PrimitiveModel::ClipRect { rect, primitives } => rect.disjoint(r) || primitives.len() == 0,
        PrimitiveModel::ClipPath { primitives, .. } => forall|i: int|
            0 <= i < primitives.len() ==> fully_outside(#[trigger] primitives[i], r),
        PrimitiveModel::Transform { primitives, .. } => primitives.len() == 0,
        PrimitiveModel::Composite { primitives, .. } => forall|i: int|
            0 <= i < primitives.len() ==> fully_outside(#[trigger] primitives[i], r),
    }
}

proof fn lemma_intersection_inside(a: PixelRect, b: PixelRect)
    ensures
        rect_intersection(a, b) is Some ==> rect_intersection(a, b)->0.inside(b),
        a.inside(b) ==> rect_intersection(a, b) == Some(a),
        rect_intersection(a, b) is None <==> a.disjoint(b),
{
}

proof fn lemma_clip_model_laws(m: PrimitiveModel, r: PixelRect)
    ensures
        forall|i: int|
            0 <= i < clip_model(m, r).len() ==> confined(#[trigger] clip_model(m, r)[i], r),
        fully_inside(m, r) ==> clip_model(m, r) == seq![m],
        fully_outside(m, r) ==> clip_model(m, r).len() == 0,
    decreases m,
{
    lemma_line_clipped_model(m, r);
    match m {
        PrimitiveModel::Rectangle { rect, .. } => lemma_intersection_inside(rect, r),
        PrimitiveModel::Text { clipping_rect, .. } => lemma_intersection_inside(clipping_rect, r),
        PrimitiveModel::Image { rect, uv, .. } => {
            lemma_intersection_inside(rect, r);
            lemma_image_identity(rect, uv, r);
        },
        PrimitiveModel::ClipRect { rect, primitives } => {
            lemma_intersection_inside(rect, r);
            if let Some(c) = rect_intersection(rect, r) {
                lemma_clip_models_laws(primitives, c);
            }
        },
        PrimitiveModel::ClipPath { path, primitives } => {
            lemma_clip_models_laws(primitives, r);
            let kids = clip_models(primitives, r);
            if kids.len() > 0 {
                let node = PrimitiveModel::ClipPath { path, primitives: kids };
                assert(clip_model(m, r) == seq![node]);
                assert forall|i: int| 0 <= i < kids.len() implies confined(#[trigger] kids[i], r) by {}
                assert(confined(node, r));
                if fully_inside(m, r) {
                    assert(kids =~= primitives);
                }
            }
        },
        PrimitiveModel::Composite { color, primitives } => {
            lemma_clip_models_laws(primitives, r);
            let kids = clip_models(primitives, r);
            if kids.len() > 0 {
                let node = PrimitiveModel::Composite { color, primitives: kids };
                assert(clip_model(m, r) == seq![node]);
                assert forall|i: int| 0 <= i < kids.len() implies confined(#[trigger] kids[i], r) by {}
                assert(confined(node, r));
                if fully_inside(m, r) {
                    assert(kids =~= primitives);
                }
            }
        },
        _ => {},
    }
}

proof fn lemma_line_clipped_model(m: PrimitiveModel, r: PixelRect)
    ensures
        m is Line ==> {
            let out = clip_model(m, r);
            &&& forall|i: int| 0 <= i < out.len() ==> confined(#[trigger] out[i], r)
            &&& fully_inside(m, r) ==> out == seq![m]
            &&& fully_outside(m, r) ==> out.len() == 0
        },
{
    if let PrimitiveModel::Line { color, thickness, start_point, end_point } = m {
        lemma_line_clipped(start_point, end_point, r);
        let out = clip_model(m, r);
        if fully_inside(m, r) {
            assert(out =~= seq![m]);
        }
    }
}

proof fn lemma_image_identity(rect: PixelRect, uv: TexCoords, r: PixelRect)
    ensures
        rect.inside(r) ==> image_clipped(rect, uv, r) == Some((rect, uv)),
{
    if rect.inside(r) {
        lemma_intersection_inside(rect, r);
        let w = rect.size.width as int;
        let h = rect.size.height as int;
        if w > 0 {
            lemma_lerp_between(uv.u1 as int, uv.u2 as int, 0, w);
            lemma_lerp_between(uv.u1 as int, uv.u2 as int, w, w);
        }
        if h > 0 {
            lemma_lerp_between(uv.v1 as int, uv.v2 as int, 0, h);
            lemma_lerp_between(uv.v1 as int, uv.v2 as int, h, h);
        }
    }
}

/// Clipping to `r` never puts geometry outside `r`; a sequence whose every
/// primitive lies fully inside `r` comes back unchanged; one whose every
/// primitive lies fully outside `r` comes back empty.
pub proof fn lemma_clip_models_laws(s: Seq<PrimitiveModel>, r: PixelRect)
    ensures
        forall|i: int|
            0 <= i < clip_models(s, r).len() ==> confined(#[trigger] clip_models(s, r)[i], r),
        (forall|i: int| 0 <= i < s.len() ==> fully_inside(#[trigger] s[i], r)) ==> clip_models(s, r)
            == s,
        (forall|i: int| 0 <= i < s.len() ==> fully_outside(#[trigger] s[i], r)) ==> clip_models(
            s,
            r,
        ).len() == 0,
    decreases s,
{
    if s.len() > 0 {
        let init = s.subrange(0, s.len() - 1);
        let last = s[s.len() - 1];
        lemma_clip_models_laws(init, r);
        lemma_clip_model_laws(last, r);
        let out = clip_models(s, r);
        assert(out == clip_models(init, r) + clip_model(last, r));
        assert forall|i: int| 0 <= i < out.len() implies confined(#[trigger] out[i], r) by {
            if i >= clip_models(init, r).len() {
                assert(out[i] == clip_model(last, r)[i - clip_models(init, r).len()]);
            }
        }
        if forall|i: int| 0 <= i < s.len() ==> fully_inside(#[trigger] s[i], r) {
            assert forall|i: int| 0 <= i < init.len() implies fully_inside(#[trigger] init[i], r) by {
                assert(init[i] == s[i]);
            }
            assert(fully_inside(last, r));
            assert(out =~= s);
        }
    }
}

} // verus!
