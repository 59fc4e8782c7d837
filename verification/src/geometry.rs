//! Exact planar geometry on integer points: orientation signs, distances from
//! a point to a segment or a line, incidence tests, the crossing test for two
//! segments and the meeting point of two lines.
//!
//! Distances and meeting points are rational in general. They are returned as
//! fractions of integers, never rounded.

use vstd::prelude::*;

verus! {

/// Largest coordinate magnitude that the segment and line queries accept.
/// Within it every intermediate product fits the machine integers.
pub const COORD_MAX: i64 = 1_000_000_000;

/// A vector of the plane with unbounded integer coordinates: the mathematical
/// value of a [`P`].
pub struct Vec2 {
    pub x: int,
    pub y: int,
}

impl Vec2 {
    pub open spec fn plus(self, a: Vec2) -> Vec2 {
        Vec2 { x: self.x + a.x, y: self.y + a.y }
    }

    pub open spec fn minus(self, a: Vec2) -> Vec2 {
        Vec2 { x: self.x - a.x, y: self.y - a.y }
    }

    pub open spec fn scale(self, k: int) -> Vec2 {
        Vec2 { x: self.x * k, y: self.y * k }
    }

    pub open spec fn dot(self, a: Vec2) -> int {
        self.x * a.x + self.y * a.y
    }

    /// The 2D cross product.
    pub open spec fn det(self, a: Vec2) -> int {
        self.x * a.y - self.y * a.x
    }

    pub open spec fn abs2(self) -> int {
        self.dot(self)
    }

    /// Both coordinates fit a 64-bit signed integer.
    pub open spec fn fits(self) -> bool {
        i64::MIN <= self.x <= i64::MAX && i64::MIN <= self.y <= i64::MAX
    }

    /// Both coordinates are at most `m` in magnitude.
    pub open spec fn within(self, m: int) -> bool {
        -m <= self.x <= m && -m <= self.y <= m
    }
}

/// A rational number `num / den`, as a mathematical value.
pub struct Frac {
    pub num: int,
    pub den: int,
}

impl Frac {
    /// `num / den <= k`, for a positive denominator.
    pub open spec fn at_most(self, k: int) -> bool {
        self.num <= k * self.den
    }

    /// The same fraction with a denominator of the opposite sign made positive.
    pub open spec fn positive_den(self) -> Frac {
        if self.den < 0 {
            Frac { num: -self.num, den: -self.den }
        } else {
            self
        }
    }
}

/// `1`, `-1` or `0` as `x` is positive, negative or zero.
pub open spec fn sign(x: int) -> int {
    if x > 0 {
        1
    } else if x < 0 {
        -1
    } else {
        0
    }
}

/// `x` fits a 64-bit signed integer.
pub open spec fn fits_i64(x: int) -> bool {
    i64::MIN <= x <= i64::MAX
}

/// Squared distance from `q` to the line through `p1` and `p2`, which must
/// differ.
pub open spec fn line_dist2(p1: Vec2, p2: Vec2, q: Vec2) -> Frac {
    let d = p2.minus(p1).det(q.minus(p1));
    Frac { num: d * d, den: p2.minus(p1).abs2() }
}

/// Squared distance from `q` to the segment from `p1` to `p2`: to the nearer
/// endpoint where the foot of the perpendicular from `q` falls outside the
/// segment, to the line otherwise.
pub open spec fn seg_dist2(p1: Vec2, p2: Vec2, q: Vec2) -> Frac {
    if p2.minus(p1).dot(q.minus(p1)) <= 0 {
        Frac { num: q.minus(p1).abs2(), den: 1 }
    } else if p1.minus(p2).dot(q.minus(p2)) <= 0 {
        Frac { num: q.minus(p2).abs2(), den: 1 }
    } else {
        line_dist2(p1, p2, q)
    }
}

/// `q` lies on the line through `p1` and `p2`.
pub open spec fn on_line(p1: Vec2, p2: Vec2, q: Vec2) -> bool {
    p2.minus(p1).det(q.minus(p1)) == 0
}

/// `q` lies on the segment from `p1` to `p2`, endpoints included.
pub open spec fn on_segment(p1: Vec2, p2: Vec2, q: Vec2) -> bool {
    on_line(p1, p2, q) && q.minus(p1).dot(q.minus(p2)) <= 0
}

pub open spec fn min2(a: int, b: int) -> int {
    if a < b {
        a
    } else {
        b
    }
}

pub open spec fn max2(a: int, b: int) -> int {
    if a < b {
        b
    } else {
        a
    }
}

/// The axis-aligned bounding boxes of the two segments have no point in common.
pub open spec fn boxes_apart(p1: Vec2, p2: Vec2, q1: Vec2, q2: Vec2) -> bool {
    ||| max2(p1.x, p2.x) < min2(q1.x, q2.x)
    ||| max2(q1.x, q2.x) < min2(p1.x, p2.x)
    ||| max2(p1.y, p2.y) < min2(q1.y, q2.y)
    ||| max2(q1.y, q2.y) < min2(p1.y, p2.y)
}

/// `b1` and `b2` are not strictly on the same side of the line through `a1`
/// and `a2`.
pub open spec fn straddles(a1: Vec2, a2: Vec2, b1: Vec2, b2: Vec2) -> bool {
    sign(a2.minus(a1).det(b1.minus(a1))) * sign(a2.minus(a1).det(b2.minus(a1))) <= 0
}

/// The crossing test for the segments `p1 p2` and `q1 q2`: their bounding
/// boxes meet, and each segment straddles the line of the other. Touching at
/// an endpoint counts as crossing.
pub open spec fn segs_cross(p1: Vec2, p2: Vec2, q1: Vec2, q2: Vec2) -> bool {
    &&& !boxes_apart(p1, p2, q1, q2)
    &&& straddles(p1, p2, q1, q2)
    &&& straddles(q1, q2, p1, p2)
}

/// The point where the line through `p1`, `p2` meets the line through `q1`,
/// `q2`, as two fractions with one positive denominator; `None` where the
/// lines are parallel.
pub open spec fn line_meet(p1: Vec2, p2: Vec2, q1: Vec2, q2: Vec2) -> Option<(Frac, Frac)> {
    let d = q2.minus(q1).det(p2.minus(p1));
    let k = q2.minus(q1).det(q1.minus(p1));
    let r = p1.scale(d).plus(p2.minus(p1).scale(k));
    if d == 0 {
        None
    } else {
        Some(
            (
                Frac { num: r.x, den: d }.positive_den(),
                Frac { num: r.y, den: d }.positive_den(),
            ),
        )
    }
}

/// A product is bounded by the product of the bounds of its factors.
pub proof fn lemma_mul_bound(a: int, b: int, m: int, n: int)
    by (nonlinear_arith)
    requires
        -m <= a <= m,
        -n <= b <= n,
    ensures
        -(m * n) <= a * b <= m * n,
{
}

/// Dot and cross products of vectors within `m` are within `2 * m * m`.
pub proof fn lemma_products_bound(u: Vec2, w: Vec2, m: int)
    requires
        u.within(m),
        w.within(m),
    ensures
        -(2 * (m * m)) <= u.dot(w) <= 2 * (m * m),
        -(2 * (m * m)) <= u.det(w) <= 2 * (m * m),
{
    lemma_mul_bound(u.x, w.x, m, m);
    lemma_mul_bound(u.y, w.y, m, m);
    lemma_mul_bound(u.x, w.y, m, m);
    lemma_mul_bound(u.y, w.x, m, m);
}

/// A point or a displacement with integer coordinates.
#[derive(Clone, Copy, Debug, PartialEq, Eq, Structural)]
pub struct P(pub i64, pub i64);

impl View for P {
    type V = Vec2;

    open spec fn view(&self) -> Vec2 {
        Vec2 { x: self.0 as int, y: self.1 as int }
    }
}

impl Default for P {
    fn default() -> (r: P)
        ensures
            r == P(0, 0),
    {
        P(0, 0)
    }
}

impl core::ops::Add for P {
    type Output = P;

    fn add(self, a: P) -> P {
        P(self.0 + a.0, self.1 + a.1)
    }
}

impl vstd::std_specs::ops::AddSpecImpl for P {
    open spec fn obeys_add_spec() -> bool {
        true
    }

    open spec fn add_req(self, a: P) -> bool {
        self@.plus(a@).fits()
    }

    open spec fn add_spec(self, a: P) -> P {
        P((self.0 + a.0) as i64, (self.1 + a.1) as i64)
    }
}

impl core::ops::Sub for P {
    type Output = P;

    fn sub(self, a: P) -> P {
        P(self.0 - a.0, self.1 - a.1)
    }
}

impl vstd::std_specs::ops::SubSpecImpl for P {
    open spec fn obeys_sub_spec() -> bool {
        true
    }

    open spec fn sub_req(self, a: P) -> bool {
        self@.minus(a@).fits()
    }

    open spec fn sub_spec(self, a: P) -> P {
        P((self.0 - a.0) as i64, (self.1 - a.1) as i64)
    }
}

impl core::ops::Mul<i64> for P {
    type Output = P;

    fn mul(self, k: i64) -> P {
        P(self.0 * k, self.1 * k)
    }
}

impl vstd::std_specs::ops::MulSpecImpl<i64> for P {
    open spec fn obeys_mul_spec() -> bool {
        true
    }

    open spec fn mul_req(self, k: i64) -> bool {
        self@.scale(k as int).fits()
    }

    open spec fn mul_spec(self, k: i64) -> P {
        P((self.0 * k) as i64, (self.1 * k) as i64)
    }
}

/// The sign of `x` as `1`, `-1` or `0`.
pub fn sig(x: i64) -> (r: i32)
    ensures
        r == sign(x as int),
{
    if x > 0 {
        1
    } else if x < 0 {
        -1
    } else {
        0
    }
}

/// The product of two 64-bit integers, which always fits 128 bits.
pub fn wide_mul(a: i64, b: i64) -> (r: i128)
    ensures
        r == a * b,
{
    proof {
        lemma_mul_bound(a as int, b as int, 0x8000_0000_0000_0000, 0x8000_0000_0000_0000);
    }
    (a as i128) * (b as i128)
}

impl P {
    /// Both coordinates are within [`COORD_MAX`].
    pub open spec fn bounded(self) -> bool {
        self@.within(COORD_MAX as int)
    }

    /// Dot product.
    pub fn dot(self, a: P) -> (r: i64)
        requires
            fits_i64(self@.dot(a@)),
        ensures
            r == self@.dot(a@),
    {
        (wide_mul(self.0, a.0) + wide_mul(self.1, a.1)) as i64
    }

    /// Cross product.
    pub fn det(self, a: P) -> (r: i64)
        requires
            fits_i64(self@.det(a@)),
        ensures
            r == self@.det(a@),
    {
        (wide_mul(self.0, a.1) - wide_mul(self.1, a.0)) as i64
    }

    /// Squared length.
    pub fn abs2(self) -> (r: i64)
        requires
            fits_i64(self@.abs2()),
        ensures
            r == self@.abs2(),
    {
        self.dot(self)
    }
}

/// A rational number `num / den` with a positive denominator.
#[derive(Clone, Copy, Debug, PartialEq, Eq, Structural)]
pub struct Ratio {
    pub num: i128,
    pub den: i128,
}

impl View for Ratio {
    type V = Frac;

    open spec fn view(&self) -> Frac {
        Frac { num: self.num as int, den: self.den as int }
    }
}

impl Ratio {
    /// Whether the fraction is at most `k`.
    pub fn at_most(self, k: i64) -> (r: bool)
        requires
            self.den > 0,
            i128::MIN <= k * self.den <= i128::MAX,
        ensures
            r == self@.at_most(k as int),
    {
        self.num <= (k as i128) * self.den
    }
}

/// The smaller and the larger of two numbers, in this order.
fn sort2(a: i64, b: i64) -> (r: (i64, i64))
    ensures
        r.0 == min2(a as int, b as int),
        r.1 == max2(a as int, b as int),
{
    if a < b {
        (a, b)
    } else {
        (b, a)
    }
}

/// Differences of bounded points, and their dot and cross products, fit 64
/// bits.
pub proof fn lemma_bounded_products(a: P, b: P, c: P, d: P)
    requires
        a.bounded(),
        b.bounded(),
        c.bounded(),
        d.bounded(),
    ensures
        b@.minus(a@).fits(),
        d@.minus(c@).fits(),
        -8_000_000_000_000_000_000 <= b@.minus(a@).dot(d@.minus(c@)) <= 8_000_000_000_000_000_000,
        -8_000_000_000_000_000_000 <= b@.minus(a@).det(d@.minus(c@)) <= 8_000_000_000_000_000_000,
{
    lemma_products_bound(b@.minus(a@), d@.minus(c@), 2_000_000_000);
}

impl P {
    /// Squared distance from `q` to the segment `s`.
    pub fn dist2_sp(s: (P, P), q: P) -> (r: Ratio)
        requires
            s.0.bounded(),
            s.1.bounded(),
            q.bounded(),
        ensures
            r@ == seg_dist2(s.0@, s.1@, q@),
            0 < r.den <= 8_000_000_000_000_000_000,
            r.num >= 0,
    {
        let (p1, p2) = s;
        proof {
            lemma_bounded_products(p1, p2, p1, q);
            lemma_bounded_products(p2, p1, p2, q);
            lemma_bounded_products(p1, q, p1, q);
            lemma_bounded_products(p2, q, p2, q);
            lemma_square_nonnegative(q@.minus(p1@));
            lemma_square_nonnegative(q@.minus(p2@));
        }
        if (p2 - p1).dot(q - p1) <= 0 {
            Ratio { num: (q - p1).abs2() as i128, den: 1 }
        } else if (p1 - p2).dot(q - p2) <= 0 {
            Ratio { num: (q - p2).abs2() as i128, den: 1 }
        } else {
            proof {
                if p1 == p2 {
                    lemma_zero_products(p2@.minus(p1@), q@.minus(p1@));
                }
            }
            P::dist2_lp(s, q)
        }
    }

    /// Squared distance from `q` to the line through the two points of `s`,
    /// which must differ.
    pub fn dist2_lp(s: (P, P), q: P) -> (r: Ratio)
        requires
            s.0.bounded(),
            s.1.bounded(),
            q.bounded(),
            s.0 != s.1,
        ensures
            r@ == line_dist2(s.0@, s.1@, q@),
            0 < r.den <= 8_000_000_000_000_000_000,
            r.num >= 0,
    {
        let (p1, p2) = s;
        proof {
            lemma_bounded_products(p1, p2, p1, q);
            lemma_bounded_products(p1, p2, p1, p2);
            lemma_square_nonnegative(p2@.minus(p1@));
        }
        let det = (p2 - p1).det(q - p1);
        proof {
            lemma_mul_bound(
                det as int,
                det as int,
                8_000_000_000_000_000_000,
                8_000_000_000_000_000_000,
            );
            lemma_mul_nonnegative(det as int);
        }
        Ratio { num: wide_mul(det, det), den: (p2 - p1).abs2() as i128 }
    }

    /// Whether `q` lies on the segment `s`, endpoints included.
    pub fn crs_sp(s: (P, P), q: P) -> (r: bool)
        requires
            s.0.bounded(),
            s.1.bounded(),
            q.bounded(),
        ensures
            r == on_segment(s.0@, s.1@, q@),
    {
        let (p1, p2) = s;
        proof {
            lemma_bounded_products(p1, q, p2, q);
        }
        P::crs_lp(s, q) && (q - p1).dot(q - p2) <= 0
    }

    /// Whether `q` lies on the line through the two points of `s`.
    pub fn crs_lp(s: (P, P), q: P) -> (r: bool)
        requires
            s.0.bounded(),
            s.1.bounded(),
            q.bounded(),
        ensures
            r == on_line(s.0@, s.1@, q@),
    {
        let (p1, p2) = s;
        proof {
            lemma_bounded_products(p1, p2, p1, q);
        }
        (p2 - p1).det(q - p1) == 0
    }

    /// Whether the segments `s` and `t` cross or touch.
    pub fn crs_ss(s: (P, P), t: (P, P)) -> (r: bool)
        requires
            s.0.bounded(),
            s.1.bounded(),
            t.0.bounded(),
            t.1.bounded(),
        ensures
            r == segs_cross(s.0@, s.1@, t.0@, t.1@),
    {
        let (p1, p2) = s;
        let (q1, q2) = t;
        let (lp0, up0) = sort2(p1.0, p2.0);
        let (lq0, uq0) = sort2(q1.0, q2.0);
        let (lp1, up1) = sort2(p1.1, p2.1);
        let (lq1, uq1) = sort2(q1.1, q2.1);
        if up0 < lq0 || uq0 < lp0 || up1 < lq1 || uq1 < lp1 {
            return false;
        }
        proof {
            lemma_bounded_products(p1, p2, p1, q1);
            lemma_bounded_products(p1, p2, p1, q2);
            lemma_bounded_products(q1, q2, q1, p1);
            lemma_bounded_products(q1, q2, q1, p2);
        }
        let a1: i32 = sig((p2 - p1).det(q1 - p1));
        let a2: i32 = sig((p2 - p1).det(q2 - p1));
        let b1: i32 = sig((q2 - q1).det(p1 - q1));
        let b2: i32 = sig((q2 - q1).det(p2 - q1));
        a1 * a2 <= 0 && b1 * b2 <= 0
    }

    /// The point where the line through the two points of `s` meets the line
    /// through the two points of `t`; `None` where they are parallel.
    pub fn pi_ll(s: (P, P), t: (P, P)) -> (r: Option<(Ratio, Ratio)>)
        requires
            s.0.bounded(),
            s.1.bounded(),
            t.0.bounded(),
            t.1.bounded(),
        ensures
            match r {
                Some(m) => line_meet(s.0@, s.1@, t.0@, t.1@) == Some((m.0@, m.1@)) && m.0.den > 0
                    && m.1.den == m.0.den,
                None => line_meet(s.0@, s.1@, t.0@, t.1@) is None,
            },
    {
        let (p1, p2) = s;
        let (q1, q2) = t;
        proof {
            lemma_bounded_products(q1, q2, p1, p2);
            lemma_bounded_products(q1, q2, p1, q1);
        }
        let d = (q2 - q1).det(p2 - p1);
        if d == 0 {
            return None;
        }
        let k = (q2 - q1).det(q1 - p1);
        let e = p2 - p1;
        proof {
            lemma_mul_bound(p1.0 as int, d as int, 1_000_000_000, 8_000_000_000_000_000_000);
            lemma_mul_bound(p1.1 as int, d as int, 1_000_000_000, 8_000_000_000_000_000_000);
            lemma_mul_bound(e.0 as int, k as int, 2_000_000_000, 8_000_000_000_000_000_000);
            lemma_mul_bound(e.1 as int, k as int, 2_000_000_000, 8_000_000_000_000_000_000);
        }
        let rx = wide_mul(p1.0, d) + wide_mul(e.0, k);
        let ry = wide_mul(p1.1, d) + wide_mul(e.1, k);
        if d < 0 {
            Some((Ratio { num: -rx, den: -(d as i128) }, Ratio { num: -ry, den: -(d as i128) }))
        } else {
            Some((Ratio { num: rx, den: d as i128 }, Ratio { num: ry, den: d as i128 }))
        }
    }
}

/// A squared length is not negative, and is zero only for the zero vector.
pub proof fn lemma_square_nonnegative(u: Vec2)
    by (nonlinear_arith)
    ensures
        u.abs2() >= 0,
        u.abs2() == 0 <==> (u.x == 0 && u.y == 0),
{
}

/// The zero vector has a zero dot and cross product with every vector.
pub proof fn lemma_zero_products(u: Vec2, w: Vec2)
    by (nonlinear_arith)
    requires
        u.x == 0,
        u.y == 0,
    ensures
        u.dot(w) == 0,
        u.det(w) == 0,
        w.det(u) == 0,
{
}

/// The product of the signs of two numbers is at most zero exactly where
/// the numbers are not strictly of one sign, and at least zero exactly where
/// they are not strictly of opposite signs.
pub proof fn lemma_sign_product(a: int, b: int)
    ensures
        sign(a) * sign(b) <= 0 <==> !((a > 0 && b > 0) || (a < 0 && b < 0)),
        sign(a) * sign(b) >= 0 <==> !((a > 0 && b < 0) || (a < 0 && b > 0)),
{
    let x = sign(a);
    let y = sign(b);
    assert((x == 1 && y == 1 ==> x * y == 1) && (x == -1 && y == -1 ==> x * y == 1) && (x == 1
        && y == -1 ==> x * y == -1) && (x == -1 && y == 1 ==> x * y == -1) && (x == 0 ==> x * y
        == 0) && (y == 0 ==> x * y == 0)) by (nonlinear_arith);
}

/// A square is not negative.
pub proof fn lemma_mul_nonnegative(a: int)
    by (nonlinear_arith)
    ensures
        a * a >= 0,
{
}

} // verus!
