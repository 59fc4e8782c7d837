//! What holds of the segment and line queries: the distance to a segment is
//! the least distance to its points, the crossing test misses no common
//! point, and the meeting point of two lines lies on both.

use vstd::prelude::*;
use crate::geometry::{
    boxes_apart, lemma_square_nonnegative, lemma_zero_products, line_dist2, line_meet, max2,
    min2, on_line, on_segment, seg_dist2, segs_cross, sign, Frac, Vec2,
};

verus! {

/// Lagrange's identity on coordinates.
proof fn lemma_lagrange_ints(a: int, b: int, c: int, d: int)
    ensures
        (a * a + b * b) * (c * c + d * d) == (a * c + b * d) * (a * c + b * d) + (a * d - b * c) * (
        a * d - b * c),
{
    let ac = a * c;
    let bd = b * d;
    let ad = a * d;
    let bc = b * c;
    assert((ac + bd) * (ac + bd) == ac * ac + 2 * (ac * bd) + bd * bd) by (nonlinear_arith);
    assert((ad - bc) * (ad - bc) == ad * ad - 2 * (ad * bc) + bc * bc) by (nonlinear_arith);
    assert((a * c) * (b * d) == (a * d) * (b * c)) by (nonlinear_arith);
    assert((a * a + b * b) * (c * c + d * d) == (a * a) * (c * c) + (a * a) * (d * d) + (b * b) * (
    c * c) + (b * b) * (d * d)) by (nonlinear_arith);
    assert((a * c) * (a * c) == (a * a) * (c * c)) by (nonlinear_arith);
    assert((b * d) * (b * d) == (b * b) * (d * d)) by (nonlinear_arith);
    assert((a * d) * (a * d) == (a * a) * (d * d)) by (nonlinear_arith);
    assert((b * c) * (b * c) == (b * b) * (c * c)) by (nonlinear_arith);
}

/// Lagrange's identity: the squared lengths of two vectors multiply to the
/// sum of the squares of their dot and cross products.
pub proof fn lemma_lagrange(u: Vec2, w: Vec2)
    ensures
        u.abs2() * w.abs2() == u.dot(w) * u.dot(w) + u.det(w) * u.det(w),
{
    lemma_lagrange_ints(u.x, u.y, w.x, w.y);
}

/// The dot products that place the foot of the perpendicular, seen from
/// either endpoint, add up to the squared length of the segment; and the
/// squared distances to the two endpoints differ by their difference.
proof fn lemma_endpoint_dots(p1: Vec2, p2: Vec2, q: Vec2)
    by (nonlinear_arith)
    ensures
        p2.minus(p1).dot(q.minus(p1)) + p1.minus(p2).dot(q.minus(p2)) == p2.minus(p1).abs2(),
        q.minus(p2).abs2() - q.minus(p1).abs2() == p1.minus(p2).dot(q.minus(p2)) - p2.minus(
            p1,
        ).dot(q.minus(p1)),
        p2.minus(p1).det(q.minus(p2)) == p2.minus(p1).det(q.minus(p1)),
        p2.minus(p1).dot(q.minus(p2)) == -p1.minus(p2).dot(q.minus(p2)),
{
}

/// Where the foot of the perpendicular from `q` to the line of the segment
/// does not fall strictly inside the segment, the distance to the segment is
/// the distance to the nearer endpoint.
pub proof fn lemma_seg_dist2_endpoint(p1: Vec2, p2: Vec2, q: Vec2)
    requires
        p2.minus(p1).dot(q.minus(p1)) <= 0 || p1.minus(p2).dot(q.minus(p2)) <= 0,
    ensures
        seg_dist2(p1, p2, q) == (Frac {
            num: min2(q.minus(p1).abs2(), q.minus(p2).abs2()),
            den: 1,
        }),
{
    lemma_endpoint_dots(p1, p2, q);
    lemma_square_nonnegative(p2.minus(p1));
}

/// Where the foot of the perpendicular from `q` falls strictly outside the
/// segment, the distance to the segment is strictly more than the
/// perpendicular distance to its line.
pub proof fn lemma_seg_dist2_beyond_line(p1: Vec2, p2: Vec2, q: Vec2)
    requires
        p2.minus(p1).dot(q.minus(p1)) < 0 || p1.minus(p2).dot(q.minus(p2)) < 0,
    ensures
        seg_dist2(p1, p2, q).den == 1,
        line_dist2(p1, p2, q).num < seg_dist2(p1, p2, q).num * line_dist2(p1, p2, q).den,
{
    let u = p2.minus(p1);
    lemma_endpoint_dots(p1, p2, q);
    lemma_square_nonnegative(u);
    if u.dot(q.minus(p1)) < 0 {
        lemma_lagrange(u, q.minus(p1));
        lemma_square_positive(u.dot(q.minus(p1)));
        assert(q.minus(p1).abs2() * u.abs2() == u.abs2() * q.minus(p1).abs2())
            by (nonlinear_arith);
    } else {
        lemma_lagrange(u, q.minus(p2));
        lemma_square_positive(u.dot(q.minus(p2)));
        assert(q.minus(p2).abs2() * u.abs2() == u.abs2() * q.minus(p2).abs2())
            by (nonlinear_arith);
    }
}

/// The distance to a segment is a fraction of a number that is not negative
/// by a positive number.
pub proof fn lemma_seg_dist2_sign(p1: Vec2, p2: Vec2, q: Vec2)
    ensures
        seg_dist2(p1, p2, q).num >= 0,
        seg_dist2(p1, p2, q).den > 0,
{
    let u = p2.minus(p1);
    lemma_square_nonnegative(u);
    lemma_square_nonnegative(q.minus(p1));
    lemma_square_nonnegative(q.minus(p2));
    if u.x == 0 && u.y == 0 {
        lemma_zero_products(u, q.minus(p1));
    }
    let d = u.det(q.minus(p1));
    assert(d * d >= 0) by (nonlinear_arith);
}

/// The square of a number other than zero is positive.
pub proof fn lemma_square_positive(a: int)
    by (nonlinear_arith)
    requires
        a != 0,
    ensures
        a * a > 0,
{
}

/// Segments whose bounding boxes have no point in common do not cross,
/// whatever the orientation tests would say.
pub proof fn lemma_boxes_apart_no_cross(p1: Vec2, p2: Vec2, q1: Vec2, q2: Vec2)
    requires
        boxes_apart(p1, p2, q1, q2),
    ensures
        !segs_cross(p1, p2, q1, q2),
{
}

/// The crossing test does not depend on the order of the two segments.
pub proof fn lemma_segs_cross_symmetric(p1: Vec2, p2: Vec2, q1: Vec2, q2: Vec2)
    ensures
        segs_cross(p1, p2, q1, q2) == segs_cross(q1, q2, p1, p2),
{
}

/// The point that [`line_meet`] gives lies on both lines: with the
/// denominator multiplied out, its cross product with the direction of each
/// line, taken from a point of that line, is zero.
pub proof fn lemma_line_meet_on_both(p1: Vec2, p2: Vec2, q1: Vec2, q2: Vec2)
    requires
        line_meet(p1, p2, q1, q2) is Some,
    ensures
        ({
            let m = line_meet(p1, p2, q1, q2)->0;
            let x = Vec2 { x: m.0.num, y: m.1.num };
            &&& m.0.den == m.1.den
            &&& m.0.den > 0
            &&& p2.minus(p1).det(x.minus(p1.scale(m.0.den))) == 0
            &&& q2.minus(q1).det(x.minus(q1.scale(m.0.den))) == 0
        }),
{
    let u = p2.minus(p1);
    let w = q2.minus(q1);
    let c = q1.minus(p1);
    let d = w.det(u);
    let k = w.det(c);
    let r = p1.scale(d).plus(u.scale(k));
    lemma_meet_algebra(u.x, u.y, w.x, w.y, c.x, c.y, d, k);
    assert(q1.x * d == p1.x * d + c.x * d && q1.y * d == p1.y * d + c.y * d) by (nonlinear_arith)
        requires
            c.x == q1.x - p1.x,
            c.y == q1.y - p1.y,
    ;
    let a = r.minus(p1.scale(d));
    let b = r.minus(q1.scale(d));
    assert(a.x == u.x * k && a.y == u.y * k);
    assert(b.x == u.x * k - c.x * d && b.y == u.y * k - c.y * d);
    if d < 0 {
        let x = Vec2 { x: -r.x, y: -r.y };
        assert(p1.x * (-d) == -(p1.x * d) && p1.y * (-d) == -(p1.y * d) && q1.x * (-d) == -(q1.x
            * d) && q1.y * (-d) == -(q1.y * d)) by (nonlinear_arith);
        lemma_det_negated(u, a, x.minus(p1.scale(-d)));
        lemma_det_negated(w, b, x.minus(q1.scale(-d)));
    }
}

/// The algebra behind [`lemma_line_meet_on_both`], on coordinates: `u` and
/// `w` are the directions of the two lines, `c` leads from a point of the
/// first to a point of the second.
proof fn lemma_meet_algebra(
    ux: int,
    uy: int,
    wx: int,
    wy: int,
    cx: int,
    cy: int,
    d: int,
    k: int,
)
    requires
        d == wx * uy - wy * ux,
        k == wx * cy - wy * cx,
    ensures
        ux * (uy * k) - uy * (ux * k) == 0,
        wx * (uy * k - cy * d) - wy * (ux * k - cx * d) == 0,
{
    assert(ux * (uy * k) == uy * (ux * k)) by (nonlinear_arith);
    assert(wx * (uy * k - cy * d) == (wx * uy) * k - (wx * cy) * d) by (nonlinear_arith);
    assert(wy * (ux * k - cx * d) == (wy * ux) * k - (wy * cx) * d) by (nonlinear_arith);
    assert((wx * uy) * k - (wy * ux) * k == (wx * uy - wy * ux) * k) by (nonlinear_arith);
    assert((wx * cy) * d - (wy * cx) * d == (wx * cy - wy * cx) * d) by (nonlinear_arith);
    assert(d * k == k * d) by (nonlinear_arith);
}

/// The cross product with a negated vector is the negated cross product.
proof fn lemma_det_negated(u: Vec2, a: Vec2, b: Vec2)
    by (nonlinear_arith)
    requires
        b.x == -a.x,
        b.y == -a.y,
    ensures
        u.det(b) == -u.det(a),
{
}

/// The square of a difference of two products, on coordinates.
proof fn lemma_square_of_difference(x: int, n: int, y: int, m: int)
    ensures
        (x * n - y * m) * (x * n - y * m) == (n * n) * (x * x) - 2 * ((n * m) * (y * x)) + (m * m)
            * (y * y),
{
    let a = x * n;
    let b = y * m;
    assert((a - b) * (a - b) == a * a - 2 * (a * b) + b * b) by (nonlinear_arith);
    assert((x * n) * (x * n) == (n * n) * (x * x)) by (nonlinear_arith);
    assert((x * n) * (y * m) == (n * m) * (y * x)) by (nonlinear_arith);
    assert((y * m) * (y * m) == (m * m) * (y * y)) by (nonlinear_arith);
}

/// The squared length of `n w - m u`.
proof fn lemma_combination_square(w: Vec2, u: Vec2, n: int, m: int)
    ensures
        w.scale(n).minus(u.scale(m)).abs2() == (n * n) * w.abs2() - 2 * ((n * m) * u.dot(w)) + (m
            * m) * u.abs2(),
{
    lemma_square_of_difference(w.x, n, u.x, m);
    lemma_square_of_difference(w.y, n, u.y, m);
    assert((n * n) * (w.x * w.x + w.y * w.y) == (n * n) * (w.x * w.x) + (n * n) * (w.y * w.y))
        by (nonlinear_arith);
    assert((n * m) * (u.x * w.x + u.y * w.y) == (n * m) * (u.x * w.x) + (n * m) * (u.y * w.y))
        by (nonlinear_arith);
    assert((m * m) * (u.x * u.x + u.y * u.y) == (m * m) * (u.x * u.x) + (m * m) * (u.y * u.y))
        by (nonlinear_arith);
}

/// The cross product of `u` with `n w - m u` is `n` times that with `w`.
proof fn lemma_combination_det(w: Vec2, u: Vec2, n: int, m: int)
    ensures
        u.det(w.scale(n).minus(u.scale(m))) == n * u.det(w),
{
    assert(u.x * (w.y * n - u.y * m) - u.y * (w.x * n - u.x * m) == n * (u.x * w.y - u.y * w.x))
        by (nonlinear_arith);
}

/// The squared distance from `q` to the point `p1 + (m / n) * (p2 - p1)`,
/// times `n * n`.
pub open spec fn dist2_at(p1: Vec2, p2: Vec2, q: Vec2, m: int, n: int) -> int {
    q.minus(p1).scale(n).minus(p2.minus(p1).scale(m)).abs2()
}

/// No point of a segment is nearer to `q` than [`seg_dist2`] says. The points
/// of the segment are `p1 + (m / n) * (p2 - p1)` with `0 <= m <= n`.
pub proof fn lemma_seg_dist2_least(p1: Vec2, p2: Vec2, q: Vec2, m: int, n: int)
    requires
        0 <= m <= n,
        0 < n,
    ensures
        seg_dist2(p1, p2, q).num * (n * n) <= dist2_at(p1, p2, q, m, n) * seg_dist2(p1, p2, q).den,
{
    let u = p2.minus(p1);
    let w = q.minus(p1);
    let z = w.scale(n).minus(u.scale(m));
    let s = u.dot(w);
    let uu = u.abs2();
    let ww = w.abs2();
    lemma_endpoint_dots(p1, p2, q);
    lemma_square_nonnegative(u);
    lemma_combination_square(w, u, n, m);
    let nn = n * n;
    let nm = n * m;
    let mm = m * m;
    assert(z.abs2() == nn * ww - 2 * (nm * s) + mm * uu);
    assert(mm >= 0 && nm >= 0 && nn >= nm && nm >= mm) by (nonlinear_arith)
        requires
            0 <= m <= n,
            nn == n * n,
            nm == n * m,
            mm == m * m,
    ;
    if s <= 0 {
        assert(nm * s <= 0) by (nonlinear_arith)
            requires
                nm >= 0,
                s <= 0,
        ;
        assert(mm * uu >= 0) by (nonlinear_arith)
            requires
                mm >= 0,
                uu >= 0,
        ;
        assert(ww * nn == nn * ww) by (nonlinear_arith);
    } else if uu - s <= 0 {
        let v = q.minus(p2).abs2();
        assert(v == ww - 2 * s + uu);
        assert(v * nn == nn * ww - 2 * (nn * s) + nn * uu) by (nonlinear_arith)
            requires
                v == ww - 2 * s + uu,
        ;
        // 2 (nn - nm) s >= 2 (nn - nm) uu >= (nn - mm) uu
        assert(2 * (nn - nm) >= nn - mm) by (nonlinear_arith)
            requires
                0 <= m <= n,
                nn == n * n,
                nm == n * m,
                mm == m * m,
        ;
        assert((nn - nm) * s >= (nn - nm) * uu) by (nonlinear_arith)
            requires
                nn - nm >= 0,
                s >= uu,
        ;
        assert(2 * ((nn - nm) * uu) >= (nn - mm) * uu) by (nonlinear_arith)
            requires
                uu >= 0,
                2 * (nn - nm) >= nn - mm,
        ;
        assert((nn - nm) * s == nn * s - nm * s) by (nonlinear_arith);
        assert((nn - mm) * uu == nn * uu - mm * uu) by (nonlinear_arith);
    } else {
        let d = u.det(w);
        lemma_lagrange(u, z);
        lemma_combination_det(w, u, n, m);
        assert((n * d) * (n * d) == (d * d) * nn) by (nonlinear_arith)
            requires
                nn == n * n,
        ;
        assert(u.dot(z) * u.dot(z) >= 0) by (nonlinear_arith);
        assert(z.abs2() * uu == uu * z.abs2()) by (nonlinear_arith);
    }
}

/// Some point of the segment is as near to `q` as [`seg_dist2`] says: an
/// endpoint, or the foot of the perpendicular from `q`.
pub proof fn lemma_seg_dist2_attained(p1: Vec2, p2: Vec2, q: Vec2)
    ensures
        exists|m: int, n: int|
            0 <= m <= n && 0 < n && seg_dist2(p1, p2, q).num * (n * n) == #[trigger] dist2_at(
                p1,
                p2,
                q,
                m,
                n,
            ) * seg_dist2(p1, p2, q).den,
{
    let u = p2.minus(p1);
    let w = q.minus(p1);
    let s = u.dot(w);
    let uu = u.abs2();
    let ww = w.abs2();
    lemma_endpoint_dots(p1, p2, q);
    if s <= 0 {
        lemma_combination_square(w, u, 1, 0);
        assert(seg_dist2(p1, p2, q).num * (1 * 1) == dist2_at(p1, p2, q, 0, 1) * 1);
    } else if uu - s <= 0 {
        lemma_combination_square(w, u, 1, 1);
        assert(seg_dist2(p1, p2, q).num * (1 * 1) == dist2_at(p1, p2, q, 1, 1) * 1);
    } else {
        let d = u.det(w);
        lemma_combination_square(w, u, uu, s);
        lemma_lagrange(u, w);
        let dd = d * d;
        let ss = s * s;
        assert(uu * ww == ss + dd);
        assert((uu * uu) * ww == uu * ss + uu * dd) by (nonlinear_arith)
            requires
                uu * ww == ss + dd,
        ;
        assert((uu * s) * s == uu * ss && ss * uu == uu * ss) by (nonlinear_arith)
            requires
                ss == s * s,
        ;
        assert(dist2_at(p1, p2, q, s, uu) == uu * dd);
        assert(dd * (uu * uu) == (uu * dd) * uu) by (nonlinear_arith);
        assert(seg_dist2(p1, p2, q).num * (uu * uu) == dist2_at(p1, p2, q, s, uu) * uu);
    }
}

/// No point of the line through `p1` and `p2` is nearer to `q` than
/// [`line_dist2`] says. The points of the line are
/// `p1 + (m / n) * (p2 - p1)`.
pub proof fn lemma_line_dist2_least(p1: Vec2, p2: Vec2, q: Vec2, m: int, n: int)
    requires
        n != 0,
    ensures
        line_dist2(p1, p2, q).num * (n * n) <= dist2_at(p1, p2, q, m, n) * line_dist2(p1, p2, q).den,
{
    let u = p2.minus(p1);
    let w = q.minus(p1);
    let z = w.scale(n).minus(u.scale(m));
    let d = u.det(w);
    lemma_lagrange(u, z);
    lemma_combination_det(w, u, n, m);
    assert((n * d) * (n * d) == (d * d) * (n * n)) by (nonlinear_arith);
    assert(u.dot(z) * u.dot(z) >= 0) by (nonlinear_arith);
    assert(z.abs2() * u.abs2() == u.abs2() * z.abs2()) by (nonlinear_arith);
}

/// A point lies on a line exactly where its distance to the line is zero.
pub proof fn lemma_on_line_iff_zero(p1: Vec2, p2: Vec2, q: Vec2)
    ensures
        on_line(p1, p2, q) <==> line_dist2(p1, p2, q).num == 0,
{
    let d = p2.minus(p1).det(q.minus(p1));
    if d != 0 {
        lemma_square_positive(d);
    }
}

/// A point lies on a segment exactly where its distance to the segment is
/// zero.
pub proof fn lemma_on_segment_iff_zero(p1: Vec2, p2: Vec2, q: Vec2)
    ensures
        on_segment(p1, p2, q) <==> seg_dist2(p1, p2, q).num == 0,
{
    let u = p2.minus(p1);
    let w = q.minus(p1);
    let s = u.dot(w);
    let uu = u.abs2();
    let ww = w.abs2();
    let d = u.det(w);
    lemma_endpoint_dots(p1, p2, q);
    lemma_square_nonnegative(u);
    lemma_square_nonnegative(w);
    lemma_square_nonnegative(q.minus(p2));
    lemma_lagrange(u, w);
    // (q - p1) . (q - p2) == ww - s
    assert(q.minus(p1).dot(q.minus(p2)) == ww - s) by (nonlinear_arith)
        requires
            ww == w.x * w.x + w.y * w.y,
            s == u.x * w.x + u.y * w.y,
            q.minus(p1) == w,
            q.minus(p2).x == w.x - u.x,
            q.minus(p2).y == w.y - u.y,
    ;
    if d != 0 {
        lemma_square_positive(d);
    }
    if s <= 0 {
        if ww == 0 {
            lemma_zero_products(w, u);
        }
    } else if uu - s <= 0 {
        if q.minus(p2).abs2() == 0 {
            lemma_zero_products(q.minus(p2), u);
        }
    } else {
        if d == 0 {
            // uu * ww == s * s with 0 < s < uu, so ww < s.
            assert(ww < s) by (nonlinear_arith)
                requires
                    uu * ww == s * s + d * d,
                    d == 0,
                    0 < s < uu,
            ;
        }
    }
}

/// A weighted mean of two numbers lies between them.
proof fn lemma_between(x1: int, x2: int, a: int, n: int)
    requires
        0 <= a <= n,
    ensures
        n * min2(x1, x2) <= x1 * n + (x2 - x1) * a <= n * max2(x1, x2),
{
    assert(x1 * n + (x2 - x1) * a == (n - a) * x1 + a * x2) by (nonlinear_arith);
    let lo = min2(x1, x2);
    let hi = max2(x1, x2);
    assert((n - a) * lo <= (n - a) * x1 <= (n - a) * hi) by (nonlinear_arith)
        requires
            n - a >= 0,
            lo <= x1 <= hi,
    ;
    assert(a * lo <= a * x2 <= a * hi) by (nonlinear_arith)
        requires
            a >= 0,
            lo <= x2 <= hi,
    ;
    assert((n - a) * lo + a * lo == n * lo) by (nonlinear_arith);
    assert((n - a) * hi + a * hi == n * hi) by (nonlinear_arith);
}

/// Two numbers that a positive factor orders are ordered themselves.
proof fn lemma_cancel(n: int, a: int, b: int)
    by (nonlinear_arith)
    requires
        n > 0,
        n * a <= n * b,
    ensures
        a <= b,
{
}

/// Where a point of the line through `o` along `u` is a weighted mean of `o +
/// c1` and `o + c2`, these two are not strictly on the same side of the line.
proof fn lemma_mean_on_line(u: Vec2, c1: Vec2, c2: Vec2, a: int, b: int, n: int)
    requires
        n > 0,
        0 <= b <= n,
        u.x * a == c1.x * n + (c2.x - c1.x) * b,
        u.y * a == c1.y * n + (c2.y - c1.y) * b,
    ensures
        sign(u.det(c1)) * sign(u.det(c2)) <= 0,
{
    let d1 = u.det(c1);
    let d2 = u.det(c2);
    let ex = u.x * a;
    let ey = u.y * a;
    assert(u.x * ey - u.y * ex == 0) by (nonlinear_arith)
        requires
            ex == u.x * a,
            ey == u.y * a,
    ;
    let p = u.x * c1.y;
    let q = u.y * c1.x;
    let r = u.x * c2.y;
    let t = u.y * c2.x;
    assert(u.x * (c1.y * n + (c2.y - c1.y) * b) == p * n + (r - p) * b) by (nonlinear_arith)
        requires
            p == u.x * c1.y,
            r == u.x * c2.y,
    ;
    assert(u.y * (c1.x * n + (c2.x - c1.x) * b) == q * n + (t - q) * b) by (nonlinear_arith)
        requires
            q == u.y * c1.x,
            t == u.y * c2.x,
    ;
    assert(p * n + (r - p) * b - (q * n + (t - q) * b) == (n - b) * (p - q) + b * (r - t))
        by (nonlinear_arith);
    assert((n - b) * d1 + b * d2 == 0);
    if d1 > 0 && d2 > 0 {
        assert((n - b) * d1 + b * d2 > 0) by (nonlinear_arith)
            requires
                d1 > 0,
                d2 > 0,
                n > 0,
                0 <= b <= n,
        ;
    }
    if d1 < 0 && d2 < 0 {
        assert((n - b) * d1 + b * d2 < 0) by (nonlinear_arith)
            requires
                d1 < 0,
                d2 < 0,
                n > 0,
                0 <= b <= n,
        ;
    }
}

/// Segments that have a point in common cross: the test misses no meeting.
///
/// The common point is `p1 + (a / n) * (p2 - p1)` on the one segment and
/// `q1 + (b / n) * (q2 - q1)` on the other, with `0 <= a <= n` and
/// `0 <= b <= n`.
pub proof fn lemma_common_point_crosses(
    p1: Vec2,
    p2: Vec2,
    q1: Vec2,
    q2: Vec2,
    a: int,
    b: int,
    n: int,
)
    requires
        n > 0,
        0 <= a <= n,
        0 <= b <= n,
        p1.scale(n).plus(p2.minus(p1).scale(a)) == q1.scale(n).plus(q2.minus(q1).scale(b)),
    ensures
        segs_cross(p1, p2, q1, q2),
{
    lemma_between(p1.x, p2.x, a, n);
    lemma_between(p1.y, p2.y, a, n);
    lemma_between(q1.x, q2.x, b, n);
    lemma_between(q1.y, q2.y, b, n);
    lemma_cancel(n, min2(q1.x, q2.x), max2(p1.x, p2.x));
    lemma_cancel(n, min2(p1.x, p2.x), max2(q1.x, q2.x));
    lemma_cancel(n, min2(q1.y, q2.y), max2(p1.y, p2.y));
    lemma_cancel(n, min2(p1.y, p2.y), max2(q1.y, q2.y));
    assert(!boxes_apart(p1, p2, q1, q2));
    // The endpoints of q, seen from p1.
    let u = p2.minus(p1);
    let c1 = q1.minus(p1);
    let c2 = q2.minus(p1);
    assert(c1.x * n == q1.x * n - p1.x * n && c1.y * n == q1.y * n - p1.y * n)
        by (nonlinear_arith)
        requires
            c1.x == q1.x - p1.x,
            c1.y == q1.y - p1.y,
    ;
    lemma_mean_on_line(u, c1, c2, a, b, n);
    // The endpoints of p, seen from q1.
    let w = q2.minus(q1);
    let e1 = p1.minus(q1);
    let e2 = p2.minus(q1);
    assert(e1.x * n == p1.x * n - q1.x * n && e1.y * n == p1.y * n - q1.y * n)
        by (nonlinear_arith)
        requires
            e1.x == p1.x - q1.x,
            e1.y == p1.y - q1.y,
    ;
    lemma_mean_on_line(w, e1, e2, b, a, n);
}

/// The point `p1 + (a / n) * (p2 - p1)` of the one segment is the point
/// `q1 + (b / n) * (q2 - q1)` of the other.
pub open spec fn common_at(
    p1: Vec2,
    p2: Vec2,
    q1: Vec2,
    q2: Vec2,
    a: int,
    b: int,
    n: int,
) -> bool {
    &&& n > 0
    &&& 0 <= a <= n
    &&& 0 <= b <= n
    &&& p1.scale(n).plus(p2.minus(p1).scale(a)) == q1.scale(n).plus(q2.minus(q1).scale(b))
}

/// The two segments have a point in common.
pub open spec fn share_point(p1: Vec2, p2: Vec2, q1: Vec2, q2: Vec2) -> bool {
    exists|a: int, b: int, n: int| common_at(p1, p2, q1, q2, a, b, n)
}

/// [`common_at`] from its two coordinate equations, written with the vector
/// from `p1` to `q1`.
proof fn lemma_common_at(p1: Vec2, p2: Vec2, q1: Vec2, q2: Vec2, a: int, b: int, n: int)
    requires
        n > 0,
        0 <= a <= n,
        0 <= b <= n,
        (p2.x - p1.x) * a - (q2.x - q1.x) * b == (q1.x - p1.x) * n,
        (p2.y - p1.y) * a - (q2.y - q1.y) * b == (q1.y - p1.y) * n,
    ensures
        common_at(p1, p2, q1, q2, a, b, n),
        share_point(p1, p2, q1, q2),
{
    assert((q1.x - p1.x) * n == q1.x * n - p1.x * n) by (nonlinear_arith);
    assert((q1.y - p1.y) * n == q1.y * n - p1.y * n) by (nonlinear_arith);
    assert(common_at(p1, p2, q1, q2, a, b, n));
}

/// Cramer's rule in the plane: `det(u, c) w - det(w, c) u == det(u, w) c`.
pub proof fn lemma_cramer(ux: int, uy: int, wx: int, wy: int, cx: int, cy: int)
    ensures
        wx * (ux * cy - uy * cx) - ux * (wx * cy - wy * cx) == cx * (ux * wy - uy * wx),
        wy * (ux * cy - uy * cx) - uy * (wx * cy - wy * cx) == cy * (ux * wy - uy * wx),
{
    assert(wx * (ux * cy - uy * cx) == (wx * ux) * cy - (wx * uy) * cx) by (nonlinear_arith);
    assert(ux * (wx * cy - wy * cx) == (wx * ux) * cy - (ux * wy) * cx) by (nonlinear_arith);
    assert(cx * (ux * wy - uy * wx) == (ux * wy) * cx - (wx * uy) * cx) by (nonlinear_arith);
    assert(wy * (ux * cy - uy * cx) == (ux * wy) * cy - (wy * uy) * cx) by (nonlinear_arith);
    assert(uy * (wx * cy - wy * cx) == (wx * uy) * cy - (wy * uy) * cx) by (nonlinear_arith);
    assert(cy * (ux * wy - uy * wx) == (ux * wy) * cy - (wx * uy) * cy) by (nonlinear_arith);
}

/// A vector `c` parallel to `u` is `u` scaled by `c . u / |u|^2`.
proof fn lemma_parallel(ux: int, uy: int, cx: int, cy: int)
    requires
        ux * cy - uy * cx == 0,
    ensures
        (cx * ux + cy * uy) * ux == (ux * ux + uy * uy) * cx,
        (cx * ux + cy * uy) * uy == (ux * ux + uy * uy) * cy,
{
    assert((cx * ux + cy * uy) * ux == (ux * ux) * cx + (ux * cy) * uy) by (nonlinear_arith);
    assert((ux * ux + uy * uy) * cx == (ux * ux) * cx + (uy * cx) * uy) by (nonlinear_arith);
    assert((cx * ux + cy * uy) * uy == (uy * cx) * ux + (uy * uy) * cy) by (nonlinear_arith);
    assert((ux * ux + uy * uy) * cy == (ux * cy) * ux + (uy * uy) * cy) by (nonlinear_arith);
    assert(ux * cy == uy * cx);
}

/// The sign of `x` where a positive multiple of it is a product of two
/// numbers other than zero.
proof fn lemma_sign_of_quotient(k: int, x: int, t: int, u: int)
    by (nonlinear_arith)
    requires
        k > 0,
        k * x == t * u,
        t != 0,
        u != 0,
    ensures
        x != 0,
        (x > 0) == ((t > 0) == (u > 0)),
{
}

/// Cross products are additive in their second argument, on coordinates.
pub proof fn lemma_det_sum(ux: int, uy: int, cx: int, cy: int, wx: int, wy: int)
    ensures
        ux * (cy + wy) - uy * (cx + wx) == (ux * cy - uy * cx) + (ux * wy - uy * wx),
        ux * (cy - wy) - uy * (cx - wx) == (ux * cy - uy * cx) - (ux * wy - uy * wx),
        ux * (-cy) - uy * (-cx) == -(ux * cy - uy * cx),
        (cx + wx) * ux + (cy + wy) * uy == (cx * ux + cy * uy) + (wx * ux + wy * uy),
{
    assert(ux * (cy + wy) == ux * cy + ux * wy) by (nonlinear_arith);
    assert(uy * (cx + wx) == uy * cx + uy * wx) by (nonlinear_arith);
    assert(ux * (cy - wy) == ux * cy - ux * wy) by (nonlinear_arith);
    assert(uy * (cx - wx) == uy * cx - uy * wx) by (nonlinear_arith);
    assert(ux * (-cy) == -(ux * cy)) by (nonlinear_arith);
    assert(uy * (-cx) == -(uy * cx)) by (nonlinear_arith);
    assert((cx + wx) * ux == cx * ux + wx * ux) by (nonlinear_arith);
    assert((cy + wy) * uy == cy * uy + wy * uy) by (nonlinear_arith);
}

/// Segments that cross and are not parallel have a point in common: the
/// meeting point of their lines.
proof fn lemma_crossing_meets(p1: Vec2, p2: Vec2, q1: Vec2, q2: Vec2)
    requires
        segs_cross(p1, p2, q1, q2),
        p2.minus(p1).det(q2.minus(q1)) != 0,
    ensures
        share_point(p1, p2, q1, q2),
{
    let ux = p2.x - p1.x;
    let uy = p2.y - p1.y;
    let wx = q2.x - q1.x;
    let wy = q2.y - q1.y;
    let cx = q1.x - p1.x;
    let cy = q1.y - p1.y;
    let delta = ux * wy - uy * wx;
    let f = ux * cy - uy * cx;
    let g = wx * cy - wy * cx;
    lemma_cramer(ux, uy, wx, wy, cx, cy);
    lemma_det_sum(ux, uy, cx, cy, wx, wy);
    lemma_det_sum(wx, wy, ux, uy, cx, cy);
    lemma_det_sum(wx, wy, cx, cy, ux, uy);
    // The four cross products of the test.
    let d1 = p2.minus(p1).det(q1.minus(p1));
    let d2 = p2.minus(p1).det(q2.minus(p1));
    let e1 = q2.minus(q1).det(p1.minus(q1));
    let e2 = q2.minus(q1).det(p2.minus(q1));
    assert(d1 == f);
    assert(d2 == f + delta) by {
        assert(q2.x - p1.x == cx + wx && q2.y - p1.y == cy + wy);
    }
    assert(e1 == -g) by {
        assert(p1.x - q1.x == -cx && p1.y - q1.y == -cy);
    }
    assert(e2 == -delta - g) by {
        assert(p2.x - q1.x == ux - cx && p2.y - q1.y == uy - cy);
        assert(wx * uy - wy * ux == -delta);
    }
    assert(sign(d1) * sign(d2) <= 0);
    assert(sign(e1) * sign(e2) <= 0);
    if delta > 0 {
        assert(ux * (-g) - wx * (-f) == cx * delta) by (nonlinear_arith)
            requires
                wx * f - ux * g == cx * delta,
        ;
        assert(uy * (-g) - wy * (-f) == cy * delta) by (nonlinear_arith)
            requires
                wy * f - uy * g == cy * delta,
        ;
        lemma_common_at(p1, p2, q1, q2, -g, -f, delta);
    } else {
        assert(ux * g - wx * f == cx * (-delta)) by (nonlinear_arith)
            requires
                wx * f - ux * g == cx * delta,
        ;
        assert(uy * g - wy * f == cy * (-delta)) by (nonlinear_arith)
            requires
                wy * f - uy * g == cy * delta,
        ;
        lemma_common_at(p1, p2, q1, q2, g, f, -delta);
    }
}

/// Segments on one line whose bounding boxes meet have a point in common,
/// where the first segment is not a single point.
proof fn lemma_crossing_overlaps(p1: Vec2, p2: Vec2, q1: Vec2, q2: Vec2)
    requires
        !boxes_apart(p1, p2, q1, q2),
        p2.minus(p1).det(q1.minus(p1)) == 0,
        p2.minus(p1).det(q2.minus(p1)) == 0,
        p2.minus(p1).abs2() > 0,
    ensures
        share_point(p1, p2, q1, q2),
{
    let ux = p2.x - p1.x;
    let uy = p2.y - p1.y;
    let wx = q2.x - q1.x;
    let wy = q2.y - q1.y;
    let cx = q1.x - p1.x;
    let cy = q1.y - p1.y;
    let ex = q2.x - p1.x;
    let ey = q2.y - p1.y;
    let uu = ux * ux + uy * uy;
    let t1 = cx * ux + cy * uy;
    let t2 = ex * ux + ey * uy;
    // uu * c == t1 * u and uu * e == t2 * u
    lemma_parallel(ux, uy, cx, cy);
    lemma_parallel(ux, uy, ex, ey);
    if 0 <= t1 <= uu {
        // q1 lies on the first segment.
        assert(ux * t1 - wx * 0 == cx * uu && uy * t1 - wy * 0 == cy * uu) by (nonlinear_arith)
            requires
                t1 * ux == uu * cx,
                t1 * uy == uu * cy,
        ;
        lemma_common_at(p1, p2, q1, q2, t1, 0, uu);
    } else if 0 <= t2 <= uu {
        // q2 lies on the first segment.
        assert(ux * t2 - wx * uu == cx * uu && uy * t2 - wy * uu == cy * uu) by (nonlinear_arith)
            requires
                t2 * ux == uu * ex,
                t2 * uy == uu * ey,
                ex == cx + wx,
                ey == cy + wy,
        ;
        lemma_common_at(p1, p2, q1, q2, t2, uu, uu);
    } else if (t1 < 0 && t2 < 0) || (t1 > uu && t2 > uu) {
        // Both ends of the second segment lie beyond the same end of the
        // first: the boxes are apart.
        if t1 < 0 {
            if ux != 0 {
                lemma_sign_of_quotient(uu, cx, t1, ux);
                lemma_sign_of_quotient(uu, ex, t2, ux);
            } else {
                lemma_sign_of_quotient(uu, cy, t1, uy);
                lemma_sign_of_quotient(uu, ey, t2, uy);
            }
        } else {
            // Seen from p2: uu * (c - u) == (t1 - uu) * u.
            assert(uu * (cx - ux) == (t1 - uu) * ux && uu * (cy - uy) == (t1 - uu) * uy && uu * (ex
                - ux) == (t2 - uu) * ux && uu * (ey - uy) == (t2 - uu) * uy) by (nonlinear_arith)
                requires
                    t1 * ux == uu * cx,
                    t1 * uy == uu * cy,
                    t2 * ux == uu * ex,
                    t2 * uy == uu * ey,
            ;
            if ux != 0 {
                lemma_sign_of_quotient(uu, cx - ux, t1 - uu, ux);
                lemma_sign_of_quotient(uu, ex - ux, t2 - uu, ux);
            } else {
                lemma_sign_of_quotient(uu, cy - uy, t1 - uu, uy);
                lemma_sign_of_quotient(uu, ey - uy, t2 - uu, uy);
            }
        }
        assert(boxes_apart(p1, p2, q1, q2));
    } else {
        // The ends of the second segment lie beyond different ends of the
        // first: p1 lies on the second segment.
        let ww = wx * wx + wy * wy;
        let s = -(cx * wx + cy * wy);
        // uu * w == (t2 - t1) * u
        let k = t2 - t1;
        assert(uu * wx == k * ux && uu * wy == k * uy) by (nonlinear_arith)
            requires
                t1 * ux == uu * cx,
                t1 * uy == uu * cy,
                t2 * ux == uu * ex,
                t2 * uy == uu * ey,
                ex == cx + wx,
                ey == cy + wy,
                k == t2 - t1,
        ;
        lemma_overlap_bounds(ux, uy, wx, wy, cx, cy, uu, t1, k);
        assert(wx * cy - wy * cx == 0) by {
            lemma_parallel_transfer(ux, uy, wx, wy, cx, cy, uu, t1, k);
        }
        lemma_parallel(wx, wy, cx, cy);
        assert(ux * 0 - wx * s == cx * ww && uy * 0 - wy * s == cy * ww) by (nonlinear_arith)
            requires
                (cx * wx + cy * wy) * wx == ww * cx,
                (cx * wx + cy * wy) * wy == ww * cy,
                s == -(cx * wx + cy * wy),
        ;
        lemma_common_at(p1, p2, q1, q2, 0, s, ww);
    }
}

/// Where `uu w == k u` and `uu c == t1 u` with `uu == |u|^2 > 0`, and `t1`
/// and `t1 + k` lie beyond different ends of `[0, uu]`: the vector `-c` is
/// `w` scaled by a factor from 0 to 1.
proof fn lemma_overlap_bounds(
    ux: int,
    uy: int,
    wx: int,
    wy: int,
    cx: int,
    cy: int,
    uu: int,
    t1: int,
    k: int,
)
    requires
        uu == ux * ux + uy * uy,
        uu > 0,
        uu * wx == k * ux,
        uu * wy == k * uy,
        uu * cx == t1 * ux,
        uu * cy == t1 * uy,
        (t1 < 0 && t1 + k > uu) || (t1 > uu && t1 + k < 0),
    ensures
        wx * wx + wy * wy > 0,
        0 <= -(cx * wx + cy * wy) <= wx * wx + wy * wy,
{
    let ww = wx * wx + wy * wy;
    let s = -(cx * wx + cy * wy);
    // uu * uu * ww == k * k * uu
    assert((uu * wx) * (uu * wx) == (uu * uu) * (wx * wx)) by (nonlinear_arith);
    assert((uu * wy) * (uu * wy) == (uu * uu) * (wy * wy)) by (nonlinear_arith);
    assert((k * ux) * (k * ux) == (k * k) * (ux * ux)) by (nonlinear_arith);
    assert((k * uy) * (k * uy) == (k * k) * (uy * uy)) by (nonlinear_arith);
    assert((uu * uu) * ww == (uu * uu) * (wx * wx) + (uu * uu) * (wy * wy)) by (nonlinear_arith)
        requires
            ww == wx * wx + wy * wy,
    ;
    assert((k * k) * uu == (k * k) * (ux * ux) + (k * k) * (uy * uy)) by (nonlinear_arith)
        requires
            uu == ux * ux + uy * uy,
    ;
    assert((uu * uu) * ww == (k * k) * uu);
    assert(uu * ww == k * k) by (nonlinear_arith)
        requires
            (uu * uu) * ww == (k * k) * uu,
            uu > 0,
    ;
    // uu * uu * s == -(t1 * k) * uu
    assert((uu * cx) * (uu * wx) == (uu * uu) * (cx * wx)) by (nonlinear_arith);
    assert((uu * cy) * (uu * wy) == (uu * uu) * (cy * wy)) by (nonlinear_arith);
    assert((t1 * ux) * (k * ux) == (t1 * k) * (ux * ux)) by (nonlinear_arith);
    assert((t1 * uy) * (k * uy) == (t1 * k) * (uy * uy)) by (nonlinear_arith);
    assert((uu * uu) * (cx * wx + cy * wy) == (uu * uu) * (cx * wx) + (uu * uu) * (cy * wy))
        by (nonlinear_arith);
    assert((t1 * k) * uu == (t1 * k) * (ux * ux) + (t1 * k) * (uy * uy)) by (nonlinear_arith)
        requires
            uu == ux * ux + uy * uy,
    ;
    assert((uu * uu) * (cx * wx + cy * wy) == (t1 * k) * uu);
    assert(uu * (cx * wx + cy * wy) == t1 * k) by (nonlinear_arith)
        requires
            (uu * uu) * (cx * wx + cy * wy) == (t1 * k) * uu,
            uu > 0,
    ;
    assert(uu * s == -(t1 * k)) by (nonlinear_arith)
        requires
            uu * (cx * wx + cy * wy) == t1 * k,
            s == -(cx * wx + cy * wy),
    ;
    // Signs: t1 and k are opposite, and |t1| < |k|.
    assert(k * k > 0 && t1 * k < 0 && k * k + t1 * k > 0) by (nonlinear_arith)
        requires
            (t1 < 0 && t1 + k > uu) || (t1 > uu && t1 + k < 0),
            uu > 0,
    ;
    assert(ww > 0 && 0 <= s <= ww) by (nonlinear_arith)
        requires
            uu > 0,
            uu * ww == k * k,
            uu * s == -(t1 * k),
            k * k > 0,
            t1 * k < 0,
            k * k + t1 * k > 0,
    ;
}

/// Where `uu w == k u` and `uu c == t1 u` with `uu > 0`, the vectors `w` and
/// `c` are parallel.
proof fn lemma_parallel_transfer(
    ux: int,
    uy: int,
    wx: int,
    wy: int,
    cx: int,
    cy: int,
    uu: int,
    t1: int,
    k: int,
)
    requires
        uu > 0,
        uu * wx == k * ux,
        uu * wy == k * uy,
        uu * cx == t1 * ux,
        uu * cy == t1 * uy,
    ensures
        wx * cy - wy * cx == 0,
{
    assert((uu * wx) * (uu * cy) == (uu * uu) * (wx * cy)) by (nonlinear_arith);
    assert((uu * wy) * (uu * cx) == (uu * uu) * (wy * cx)) by (nonlinear_arith);
    assert((k * ux) * (t1 * uy) == (k * uy) * (t1 * ux)) by (nonlinear_arith);
    assert((uu * uu) * (wx * cy) == (uu * uu) * (wy * cx));
    assert(wx * cy == wy * cx) by (nonlinear_arith)
        requires
            (uu * uu) * (wx * cy) == (uu * uu) * (wy * cx),
            uu > 0,
    ;
}

/// Having a point in common does not depend on the order of the segments.
proof fn lemma_share_point_symmetric(p1: Vec2, p2: Vec2, q1: Vec2, q2: Vec2)
    requires
        share_point(p1, p2, q1, q2),
    ensures
        share_point(q1, q2, p1, p2),
{
    let (a, b, n) = choose|a: int, b: int, n: int| common_at(p1, p2, q1, q2, a, b, n);
    assert(common_at(q1, q2, p1, p2, b, a, n));
}

/// Segments that cross have a point in common: the test raises no false
/// alarm.
pub proof fn lemma_crossing_shares_point(p1: Vec2, p2: Vec2, q1: Vec2, q2: Vec2)
    requires
        segs_cross(p1, p2, q1, q2),
    ensures
        share_point(p1, p2, q1, q2),
{
    let u = p2.minus(p1);
    let w = q2.minus(q1);
    if u.det(w) != 0 {
        lemma_crossing_meets(p1, p2, q1, q2);
    } else {
        let c = q1.minus(p1);
        lemma_det_sum(u.x, u.y, c.x, c.y, w.x, w.y);
        lemma_det_sum(w.x, w.y, u.x, u.y, c.x, c.y);
        lemma_det_sum(w.x, w.y, c.x, c.y, u.x, u.y);
        let d1 = u.det(q1.minus(p1));
        let d2 = u.det(q2.minus(p1));
        let e1 = w.det(p1.minus(q1));
        let e2 = w.det(p2.minus(q1));
        assert(d2 == d1) by {
            assert(q2.x - p1.x == c.x + w.x && q2.y - p1.y == c.y + w.y);
        }
        assert(e2 == e1) by {
            assert(p1.x - q1.x == -c.x && p1.y - q1.y == -c.y);
            assert(p2.x - q1.x == u.x - c.x && p2.y - q1.y == u.y - c.y);
            assert(w.x * u.y - w.y * u.x == 0);
        }
        assert(sign(d1) * sign(d2) <= 0);
        assert(sign(e1) * sign(e2) <= 0);
        assert(d1 == 0 && e1 == 0);
        lemma_square_nonnegative(u);
        lemma_square_nonnegative(w);
        if u.abs2() > 0 {
            lemma_crossing_overlaps(p1, p2, q1, q2);
        } else if w.abs2() > 0 {
            lemma_crossing_overlaps(q1, q2, p1, p2);
            lemma_share_point_symmetric(q1, q2, p1, p2);
        } else {
            assert(u.x * 0 - w.x * 0 == c.x * 1 && u.y * 0 - w.y * 0 == c.y * 1);
            lemma_common_at(p1, p2, q1, q2, 0, 0, 1);
        }
    }
}

/// The crossing test is exact: two segments cross exactly where they have a
/// point in common.
pub proof fn lemma_cross_iff_share_point(p1: Vec2, p2: Vec2, q1: Vec2, q2: Vec2)
    ensures
        segs_cross(p1, p2, q1, q2) <==> share_point(p1, p2, q1, q2),
{
    if segs_cross(p1, p2, q1, q2) {
        lemma_crossing_shares_point(p1, p2, q1, q2);
    }
    if share_point(p1, p2, q1, q2) {
        let (a, b, n) = choose|a: int, b: int, n: int| common_at(p1, p2, q1, q2, a, b, n);
        lemma_common_point_crosses(p1, p2, q1, q2, a, b, n);
    }
}

} // verus!
