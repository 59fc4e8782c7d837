//! Sensing: the nearest wall along a ray.

use vstd::prelude::*;
use crate::geometry::{
    lemma_products_bound, lemma_sign_product, lemma_square_nonnegative, lemma_zero_products,
    line_meet, sig, sign, wide_mul, Frac, P, Vec2,
};
use crate::geometry_laws::{lemma_cramer, lemma_det_sum};
use crate::problem::{wall_a, wall_b, wall_bounded, Input, Wall};

verus! {

/// What a turn sensed.
#[derive(Clone, Copy, Debug, PartialEq, Eq, Structural)]
pub enum Sensed {
    /// The command was not a sensing command.
    Skipped,
    /// The ray meets no wall.
    Clear,
    /// The ray meets its nearest wall at `num / den` times the length of the
    /// direction vector, with `num >= 0` and `den > 0`.
    Wall { num: i64, den: i64 },
}

/// The four sides of the arena, as walls.
pub open spec fn arena_walls() -> Seq<Wall> {
    seq![
        (-100000i64, -100000i64, -100000i64, 100000i64),
        (-100000i64, 100000i64, 100000i64, 100000i64),
        (100000i64, 100000i64, 100000i64, -100000i64),
        (100000i64, -100000i64, -100000i64, -100000i64),
    ]
}

/// The walls that a ray can meet: those of the instance, then the four sides
/// of the arena.
pub open spec fn sight(input: Input) -> Seq<Wall> {
    input.walls@ + arena_walls()
}

/// Cross product of the wall's direction with the ray's direction; zero where
/// they are parallel.
pub open spec fn ray_den(w: Wall, dir: Vec2) -> int {
    wall_b(w).minus(wall_a(w)).det(dir)
}

/// Cross product of the wall's direction with the vector from `p` to the
/// wall's first endpoint. The line of the wall meets the line of the ray at
/// `p + dir * ray_num / ray_den`.
pub open spec fn ray_num(w: Wall, p: Vec2) -> int {
    wall_b(w).minus(wall_a(w)).det(wall_a(w).minus(p))
}

/// The ray from `p` along `dir` meets the wall: the lines are not parallel,
/// the wall's endpoints are not strictly on one side of the ray's line, and
/// the meeting point is not behind `p`.
pub open spec fn ray_meets(w: Wall, p: Vec2, dir: Vec2) -> bool {
    &&& ray_den(w, dir) != 0
    &&& sign(dir.det(wall_a(w).minus(p))) * sign(dir.det(wall_b(w).minus(p))) <= 0
    &&& sign(ray_num(w, p)) * sign(ray_den(w, dir)) >= 0
}

pub open spec fn abs(x: int) -> int {
    if x < 0 {
        -x
    } else {
        x
    }
}

/// How far along the ray the wall is met, in lengths of `dir`.
pub open spec fn ray_reach(w: Wall, p: Vec2, dir: Vec2) -> Frac {
    Frac { num: abs(ray_num(w, p)), den: abs(ray_den(w, dir)) }
}

/// `a < b`, for fractions with positive denominators.
pub open spec fn nearer(a: Frac, b: Frac) -> bool {
    a.num * b.den < b.num * a.den
}

/// Among the first `n` walls of `ws`, wall `k` is met by the ray, no wall is
/// met nearer, and no earlier wall is met as near.
pub open spec fn first_nearest(ws: Seq<Wall>, n: int, p: Vec2, dir: Vec2, k: int) -> bool {
    &&& 0 <= k < n
    &&& ray_meets(ws[k], p, dir)
    &&& forall|j: int|
        0 <= j < n && ray_meets(#[trigger] ws[j], p, dir) ==> if j < k {
            nearer(ray_reach(ws[k], p, dir), ray_reach(ws[j], p, dir))
        } else {
            !nearer(ray_reach(ws[j], p, dir), ray_reach(ws[k], p, dir))
        }
}

/// `r` is what the ray from `p` along `dir` senses among the first `n` walls
/// of `ws`: `Clear` where it meets none, else the reach of the first nearest
/// wall.
pub open spec fn sensed_among(ws: Seq<Wall>, n: int, p: Vec2, dir: Vec2, r: Sensed) -> bool {
    match r {
        Sensed::Skipped => false,
        Sensed::Clear => forall|j: int| 0 <= j < n ==> !ray_meets(#[trigger] ws[j], p, dir),
        Sensed::Wall { num, den } => exists|k: int|
            first_nearest(ws, n, p, dir, k) && num == ray_reach(#[trigger] ws[k], p, dir).num && den
                == ray_reach(ws[k], p, dir).den,
    }
}

/// Order of fractions with positive denominators: what is nearer than `b` is
/// nearer than everything that is not nearer than `b`.
pub proof fn lemma_nearer_trans(a: Frac, b: Frac, c: Frac)
    by (nonlinear_arith)
    requires
        a.den > 0,
        b.den > 0,
        c.den > 0,
        a.num * b.den < b.num * a.den,
        !(c.num * b.den < b.num * c.den),
    ensures
        a.num * c.den < c.num * a.den,
{
    assert(a.num * b.den * c.den < b.num * a.den * c.den);
    assert(b.num * c.den * a.den <= c.num * b.den * a.den);
    assert((a.num * c.den) * b.den < (c.num * a.den) * b.den);
}

/// The magnitude of a number that is not the least of its type.
fn abs64(x: i64) -> (r: i64)
    requires
        x > i64::MIN,
    ensures
        r == abs(x as int),
{
    if x < 0 {
        -x
    } else {
        x
    }
}

/// Whether the ray from `p` along `dir` meets the wall `w`, and how far along.
fn ray_hit(w: Wall, p: P, dir: P) -> (r: Option<(i64, i64)>)
    requires
        wall_bounded(w),
        p.bounded(),
        dir.bounded(),
    ensures
        r is Some == ray_meets(w, p@, dir@),
        r matches Some(h) ==> h.0 == ray_reach(w, p@, dir@).num && h.1 == ray_reach(
            w,
            p@,
            dir@,
        ).den && h.1 > 0,
{
    let w1 = P(w.0, w.1);
    let w2 = P(w.2, w.3);
    proof {
        lemma_products_bound(w2@.minus(w1@), dir@, 2_000_000_000);
        lemma_products_bound(dir@, w1@.minus(p@), 2_000_000_000);
        lemma_products_bound(dir@, w2@.minus(p@), 2_000_000_000);
        lemma_products_bound(w2@.minus(w1@), w1@.minus(p@), 2_000_000_000);
    }
    let d = (w2 - w1).det(dir);
    if d == 0 {
        return None;
    }
    if sig(dir.det(w1 - p)) * sig(dir.det(w2 - p)) > 0 {
        return None;
    }
    let s = (w2 - w1).det(w1 - p);
    if sig(s) * sig(d) < 0 {
        return None;
    }
    Some((abs64(s), abs64(d)))
}

/// What is sensed once wall `i` of `ws` is taken into account as well.
fn closer(best: Sensed, w: Wall, p: P, dir: P, Ghost(ws): Ghost<Seq<Wall>>, Ghost(i): Ghost<int>) -> (r:
    Sensed)
    requires
        0 <= i < ws.len(),
        ws[i] == w,
        wall_bounded(w),
        p.bounded(),
        dir.bounded(),
        sensed_among(ws, i, p@, dir@, best),
    ensures
        sensed_among(ws, i + 1, p@, dir@, r),
{
    match ray_hit(w, p, dir) {
        None => {
            proof {
                if let Sensed::Wall { num, den } = best {
                    let k = choose|k: int|
                        first_nearest(ws, i, p@, dir@, k) && num == ray_reach(
                            #[trigger] ws[k],
                            p@,
                            dir@,
                        ).num && den == ray_reach(ws[k], p@, dir@).den;
                    assert(first_nearest(ws, i + 1, p@, dir@, k));
                }
            }
            best
        },
        Some((num, den)) => {
            match best {
                Sensed::Wall { num: bn, den: bd } => {
                    let ghost k = choose|k: int|
                        first_nearest(ws, i, p@, dir@, k) && bn == ray_reach(
                            #[trigger] ws[k],
                            p@,
                            dir@,
                        ).num && bd == ray_reach(ws[k], p@, dir@).den;
                    if wide_mul(num, bd) < wide_mul(bn, den) {
                        proof {
                            assert forall|j: int|
                                0 <= j < i + 1 && ray_meets(#[trigger] ws[j], p@, dir@) implies if j
                                < i {
                                nearer(ray_reach(ws[i], p@, dir@), ray_reach(ws[j], p@, dir@))
                            } else {
                                !nearer(ray_reach(ws[j], p@, dir@), ray_reach(ws[i], p@, dir@))
                            } by {
                                if j < i {
                                    lemma_nearer_trans(
                                        ray_reach(ws[i], p@, dir@),
                                        ray_reach(ws[k], p@, dir@),
                                        ray_reach(ws[j], p@, dir@),
                                    );
                                }
                            }
                            assert(first_nearest(ws, i + 1, p@, dir@, i));
                        }
                        Sensed::Wall { num, den }
                    } else {
                        proof {
                            assert(first_nearest(ws, i + 1, p@, dir@, k));
                        }
                        best
                    }
                },
                _ => {
                    proof {
                        assert(first_nearest(ws, i + 1, p@, dir@, i));
                    }
                    Sensed::Wall { num, den }
                },
            }
        },
    }
}

/// Casts a ray from `p` along `dir` and finds the nearest wall it meets, among
/// the walls of the instance and the four sides of the arena.
pub fn sense(input: &Input, p: P, dir: P) -> (r: Sensed)
    requires
        input.wf(),
        p.bounded(),
        dir.bounded(),
    ensures
        sensed_among(sight(*input), sight(*input).len() as int, p@, dir@, r),
{
    let ghost ws = sight(*input);
    let m = input.walls.len();
    let mut best = Sensed::Clear;
    let mut i: usize = 0;
    while i < m
        invariant
            i <= m,
            m == input.walls.len(),
            ws == sight(*input),
            input.wf(),
            p.bounded(),
            dir.bounded(),
            sensed_among(ws, i as int, p@, dir@, best),
        decreases m - i,
    {
        best = closer(best, input.walls[i], p, dir, Ghost(ws), Ghost(i as int));
        i += 1;
    }
    best = closer(best, (-100000, -100000, -100000, 100000), p, dir, Ghost(ws), Ghost(m as int));
    best = closer(best, (-100000, 100000, 100000, 100000), p, dir, Ghost(ws), Ghost(m + 1));
    best = closer(best, (100000, 100000, 100000, -100000), p, dir, Ghost(ws), Ghost(m + 2));
    best = closer(best, (100000, -100000, -100000, -100000), p, dir, Ghost(ws), Ghost(m + 3));
    best
}

/// At most one wall is the first nearest: what is sensed is determined.
pub proof fn lemma_first_nearest_unique(ws: Seq<Wall>, n: int, p: Vec2, dir: Vec2, j: int, k: int)
    requires
        first_nearest(ws, n, p, dir, j),
        first_nearest(ws, n, p, dir, k),
    ensures
        j == k,
{
}

/// Where the ray is not parallel to the wall, the line of the ray meets the
/// line of the wall at `p + dir * ray_num / ray_den`.
pub proof fn lemma_ray_meeting_point(w: Wall, p: Vec2, dir: Vec2)
    requires
        ray_den(w, dir) != 0,
    ensures
        line_meet(p, p.plus(dir), wall_a(w), wall_b(w)) == Some(
            (
                Frac {
                    num: p.x * ray_den(w, dir) + dir.x * ray_num(w, p),
                    den: ray_den(w, dir),
                }.positive_den(),
                Frac {
                    num: p.y * ray_den(w, dir) + dir.y * ray_num(w, p),
                    den: ray_den(w, dir),
                }.positive_den(),
            ),
        ),
{
    assert(p.plus(dir).minus(p) == dir);
}

/// What [`ray_meets`] and [`ray_reach`] say of the meeting point `x` of the
/// ray's line with the wall's line.
///
/// With `x - p` taken times the denominator of `x`: the meeting point is not
/// behind `p`, that is its dot product with `dir` is not negative, exactly
/// where [`ray_meets`] asks so of the signs; and its distance from `p` is the
/// length of `dir` times the reach.
pub proof fn lemma_ray_reach(w: Wall, p: Vec2, dir: Vec2)
    requires
        ray_den(w, dir) != 0,
    ensures
        ({
            let x = line_meet(p, p.plus(dir), wall_a(w), wall_b(w))->0;
            let reach = ray_reach(w, p, dir);
            let off = Vec2 { x: x.0.num - p.x * x.0.den, y: x.1.num - p.y * x.1.den };
            &&& x.0.den == reach.den
            &&& x.1.den == reach.den
            &&& (off.dot(dir) >= 0) == (sign(ray_num(w, p)) * sign(ray_den(w, dir)) >= 0)
            &&& off.abs2() == dir.abs2() * (reach.num * reach.num)
        }),
{
    let d = ray_den(w, dir);
    let s = ray_num(w, p);
    let dd = dir.abs2();
    lemma_ray_meeting_point(w, p, dir);
    lemma_square_nonnegative(dir);
    if dir.x == 0 && dir.y == 0 {
        lemma_zero_products(dir, wall_b(w).minus(wall_a(w)));
    }
    assert(dd > 0);
    let e = if d < 0 {
        -s
    } else {
        s
    };
    let off = Vec2 { x: dir.x * e, y: dir.y * e };
    assert(p.x * (-d) == -(p.x * d) && p.y * (-d) == -(p.y * d) && dir.x * (-s) == -(dir.x * s)
        && dir.y * (-s) == -(dir.y * s)) by (nonlinear_arith);
    assert(off.dot(dir) == e * dd) by (nonlinear_arith)
        requires
            off.x == dir.x * e,
            off.y == dir.y * e,
            dd == dir.x * dir.x + dir.y * dir.y,
    ;
    assert((e * dd >= 0) == (e >= 0)) by (nonlinear_arith)
        requires
            dd > 0,
    ;
    assert(off.abs2() == dd * (e * e)) by (nonlinear_arith)
        requires
            off.x == dir.x * e,
            off.y == dir.y * e,
            dd == dir.x * dir.x + dir.y * dir.y,
    ;
    assert(abs(s) * abs(s) == e * e) by (nonlinear_arith)
        requires
            e == s || e == -s,
            abs(s) == s || abs(s) == -s,
    ;
}

/// The point `p + (t / n) * dir` of the ray, with `t >= 0`, is the point
/// `a + (b / n) * (b' - a)` of the wall from `a` to `b'`, with `0 <= b <= n`.
pub open spec fn ray_hits_at(w: Wall, p: Vec2, dir: Vec2, t: int, b: int, n: int) -> bool {
    &&& n > 0
    &&& t >= 0
    &&& 0 <= b <= n
    &&& p.scale(n).plus(dir.scale(t)) == wall_a(w).scale(n).plus(
        wall_b(w).minus(wall_a(w)).scale(b),
    )
}

/// A ray meets a wall exactly where it is not parallel to the wall and has a
/// point in common with it.
pub proof fn lemma_ray_meets_iff_hits(w: Wall, p: Vec2, dir: Vec2)
    ensures
        ray_meets(w, p, dir) <==> (ray_den(w, dir) != 0 && exists|t: int, b: int, n: int|
            ray_hits_at(w, p, dir, t, b, n)),
{
    let dx = dir.x;
    let dy = dir.y;
    let ox = wall_b(w).x - wall_a(w).x;
    let oy = wall_b(w).y - wall_a(w).y;
    let cx = wall_a(w).x - p.x;
    let cy = wall_a(w).y - p.y;
    let d = ox * dy - oy * dx;
    let s = ox * cy - oy * cx;
    let h1 = dx * cy - dy * cx;
    let h2 = dir.det(wall_b(w).minus(p));
    assert(d == ray_den(w, dir) && s == ray_num(w, p) && h1 == dir.det(wall_a(w).minus(p)));
    lemma_det_sum(dx, dy, cx, cy, ox, oy);
    assert(h2 == h1 - d) by {
        assert(wall_b(w).x - p.x == cx + ox && wall_b(w).y - p.y == cy + oy);
        assert(dx * oy - dy * ox == -d) by (nonlinear_arith)
            requires
                d == ox * dy - oy * dx,
        ;
    }
    // dir * s - (b' - a) * h1 == (a - p) * d
    lemma_cramer(dx, dy, ox, oy, cx, cy);
    assert(dx * s - ox * h1 == cx * d && dy * s - oy * h1 == cy * d) by (nonlinear_arith)
        requires
            ox * h1 - dx * s == cx * (dx * oy - dy * ox),
            oy * h1 - dy * s == cy * (dx * oy - dy * ox),
            d == ox * dy - oy * dx,
    ;
    lemma_sign_product(h1, h2);
    lemma_sign_product(s, d);
    if ray_meets(w, p, dir) {
        let (t, b, n) = if d > 0 {
            (s, h1, d)
        } else {
            (-s, -h1, -d)
        };
        assert(dx * t - ox * b == cx * n && dy * t - oy * b == cy * n) by (nonlinear_arith)
            requires
                dx * s - ox * h1 == cx * d,
                dy * s - oy * h1 == cy * d,
                (t == s && b == h1 && n == d) || (t == -s && b == -h1 && n == -d),
        ;
        assert(cx * n == wall_a(w).x * n - p.x * n && cy * n == wall_a(w).y * n - p.y * n)
            by (nonlinear_arith)
            requires
                cx == wall_a(w).x - p.x,
                cy == wall_a(w).y - p.y,
        ;
        assert(ray_hits_at(w, p, dir, t, b, n));
    }
    if d != 0 && exists|t: int, b: int, n: int| ray_hits_at(w, p, dir, t, b, n) {
        let (t, b, n) = choose|t: int, b: int, n: int| ray_hits_at(w, p, dir, t, b, n);
        assert(cx * n == wall_a(w).x * n - p.x * n && cy * n == wall_a(w).y * n - p.y * n)
            by (nonlinear_arith)
            requires
                cx == wall_a(w).x - p.x,
                cy == wall_a(w).y - p.y,
        ;
        let ex = cx * n;
        let ey = cy * n;
        assert(ex == dx * t - ox * b && ey == dy * t - oy * b);
        // n * s == t * d and n * h1 == b * d
        assert(ox * ey - oy * ex == n * s && dx * ey - dy * ex == n * h1) by (nonlinear_arith)
            requires
                ex == cx * n,
                ey == cy * n,
                s == ox * cy - oy * cx,
                h1 == dx * cy - dy * cx,
        ;
        assert(ox * (dy * t - oy * b) - oy * (dx * t - ox * b) == t * d) by (nonlinear_arith)
            requires
                d == ox * dy - oy * dx,
        ;
        assert(dx * (dy * t - oy * b) - dy * (dx * t - ox * b) == b * d) by (nonlinear_arith)
            requires
                d == ox * dy - oy * dx,
        ;
        assert(n * s == t * d && n * h1 == b * d);
        assert(n * h2 == (b - n) * d) by (nonlinear_arith)
            requires
                n * h1 == b * d,
                h2 == h1 - d,
        ;
        assert((d > 0 ==> s >= 0) && (d < 0 ==> s <= 0)) by (nonlinear_arith)
            requires
                n * s == t * d,
                n > 0,
                t >= 0,
        ;
        assert((d > 0 ==> h1 >= 0 && h2 <= 0) && (d < 0 ==> h1 <= 0 && h2 >= 0))
            by (nonlinear_arith)
            requires
                n * h1 == b * d,
                n * h2 == (b - n) * d,
                n > 0,
                0 <= b <= n,
        ;
    }
}

} // verus!
