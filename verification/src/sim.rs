//! The simulation engine: the state of the agent and the step that one
//! command makes.

use vstd::prelude::*;
use crate::geometry::{max2, seg_dist2, segs_cross, P, Vec2};
use crate::geometry_laws::{
    dist2_at, lemma_cross_iff_share_point, lemma_seg_dist2_attained, lemma_seg_dist2_least,
    lemma_seg_dist2_sign, share_point,
};
use crate::minmax::SetMinMax;
use crate::problem::{in_limit, pt, wall_a, wall_b, Input, Wall, ARENA, MAX_T};
use crate::sense::{sensed_among, sight, Sensed};

verus! {

/// A target counts as reached where the path of one turn passes within this
/// squared distance of it.
pub const RADIUS2: i64 = 1_000_000;

/// What every turn costs.
pub const TURN_COST: i64 = 2;

/// What a failed move costs, on top of the turn.
pub const CRASH_COST: i64 = 100;

/// What a newly reached target gains.
pub const TARGET_GAIN: i64 = 1000;

/// The mathematical value of a [`Sim`].
pub struct SimState {
    /// Which targets have been reached, by index.
    pub visited: Seq<bool>,
    /// The best running score so far.
    pub score: int,
    /// The running score.
    pub crt_score: int,
    /// Position.
    pub p: Vec2,
    /// Velocity.
    pub v: Vec2,
    /// Number of turns made.
    pub t: nat,
}

/// The number of `true` entries.
pub open spec fn count_true(v: Seq<bool>) -> nat
    decreases v.len(),
{
    if v.len() == 0 {
        0
    } else {
        count_true(v.drop_last()) + if v.last() {
            1nat
        } else {
            0nat
        }
    }
}

/// `q` lies in the closed arena.
pub open spec fn in_arena(q: Vec2) -> bool {
    q.within(ARENA as int)
}

/// The move from `p` to `q` crosses or touches one of the walls.
pub open spec fn blocked(walls: Seq<Wall>, p: Vec2, q: Vec2) -> bool {
    exists|i: int|
        0 <= i < walls.len() && segs_cross(wall_a(#[trigger] walls[i]), wall_b(walls[i]), p, q)
}

/// The move from `p` to `q` fails: it leaves the arena or meets a wall.
pub open spec fn collides(input: Input, p: Vec2, q: Vec2) -> bool {
    !in_arena(q) || blocked(input.walls@, p, q)
}

/// The move from `p` to `q` passes within the radius of `target`.
pub open spec fn reaches(p: Vec2, q: Vec2, target: Vec2) -> bool {
    seg_dist2(p, q, target).at_most(RADIUS2 as int)
}

/// Target `i` was not visited in `s` and the move from the position of `s` to
/// `q` reaches it.
pub open spec fn newly(input: Input, s: SimState, q: Vec2, i: int) -> bool {
    !s.visited[i] && reaches(s.p, q, pt(input.ps[i]))
}

/// The targets among the first `n` that the move to `q` newly reaches, in
/// ascending order.
pub open spec fn new_hits(input: Input, s: SimState, q: Vec2, n: nat) -> Seq<usize>
    decreases n,
{
    if n == 0 {
        Seq::empty()
    } else {
        let rest = new_hits(input, s, q, (n - 1) as nat);
        if newly(input, s, q, n - 1) {
            rest.push((n - 1) as usize)
        } else {
            rest
        }
    }
}

/// What a command adds to the velocity: its vector for `'A'`, nothing
/// otherwise.
pub open spec fn thrust(mv: char, x: int, y: int) -> Vec2 {
    if mv == 'A' {
        Vec2 { x, y }
    } else {
        Vec2 { x: 0, y: 0 }
    }
}

/// The velocity with which the turn's move is tried: the old velocity, the
/// command's thrust and the turn's drift.
pub open spec fn tried_velocity(s: SimState, input: Input, mv: char, x: int, y: int) -> Vec2 {
    s.v.plus(thrust(mv, x, y)).plus(pt(input.fs[s.t as int]))
}

/// Where the turn's move would end.
pub open spec fn candidate(s: SimState, input: Input, mv: char, x: int, y: int) -> Vec2 {
    s.p.plus(tried_velocity(s, input, mv, x, y))
}

/// The state after one command.
///
/// Every turn costs [`TURN_COST`]. A move that fails costs [`CRASH_COST`]
/// more, stops the agent and leaves it where it was; the best score is not
/// touched. A move that succeeds marks each newly reached target, gains
/// [`TARGET_GAIN`] for each, and raises the best score to the running score
/// if that is higher.
pub open spec fn step(s: SimState, input: Input, mv: char, x: int, y: int) -> SimState {
    let v = tried_velocity(s, input, mv, x, y);
    let q = candidate(s, input, mv, x, y);
    if collides(input, s.p, q) {
        SimState {
            visited: s.visited,
            score: s.score,
            crt_score: s.crt_score - TURN_COST - CRASH_COST,
            p: s.p,
            v: Vec2 { x: 0, y: 0 },
            t: s.t + 1,
        }
    } else {
        let crt = s.crt_score - TURN_COST + TARGET_GAIN * new_hits(
            input,
            s,
            q,
            input.ps.len() as nat,
        ).len();
        SimState {
            visited: Seq::new(s.visited.len(), |i: int| s.visited[i] || newly(input, s, q, i)),
            score: max2(s.score, crt),
            crt_score: crt,
            p: q,
            v,
            t: s.t + 1,
        }
    }
}

/// The state before the first command: at the start, at rest, nothing
/// visited, scores zero.
pub open spec fn initial(input: Input) -> SimState {
    SimState {
        visited: Seq::new(input.ps.len() as nat, |i: int| false),
        score: 0,
        crt_score: 0,
        p: pt(input.s),
        v: Vec2 { x: 0, y: 0 },
        t: 0,
    }
}

/// Setting one `false` entry to `true` raises the count by one.
pub proof fn lemma_count_set(v: Seq<bool>, i: int)
    requires
        0 <= i < v.len(),
        !v[i],
    ensures
        count_true(v.update(i, true)) == count_true(v) + 1,
    decreases v.len(),
{
    let u = v.update(i, true);
    if i == v.len() - 1 {
        assert(u.drop_last() =~= v.drop_last());
    } else {
        lemma_count_set(v.drop_last(), i);
        assert(u.drop_last() =~= v.drop_last().update(i, true));
    }
}

/// No more entries are `true` than there are entries.
pub proof fn lemma_count_bound(v: Seq<bool>)
    ensures
        count_true(v) <= v.len(),
    decreases v.len(),
{
    if v.len() > 0 {
        lemma_count_bound(v.drop_last());
    }
}

/// The running simulation.
#[derive(Debug)]
pub struct Sim {
    /// Which targets have been reached, by index.
    pub visited: Vec<bool>,
    /// The best running score so far: the reported score.
    pub score: i64,
    /// The running score.
    pub crt_score: i64,
    /// Position.
    pub p: P,
    /// Velocity.
    pub v: P,
    /// Number of turns made.
    pub t: usize,
}

impl View for Sim {
    type V = SimState;

    open spec fn view(&self) -> SimState {
        SimState {
            visited: self.visited@,
            score: self.score as int,
            crt_score: self.crt_score as int,
            p: self.p@,
            v: self.v@,
            t: self.t as nat,
        }
    }
}

/// A list of `n` entries, all `false`.
fn none_visited(n: usize) -> (v: Vec<bool>)
    ensures
        v@ == Seq::new(n as nat, |i: int| false),
        count_true(v@) == 0,
{
    let mut v: Vec<bool> = Vec::new();
    let mut i: usize = 0;
    while i < n
        invariant
            i <= n,
            v@ =~= Seq::new(i as nat, |j: int| false),
            count_true(v@) == 0,
        decreases n - i,
    {
        let ghost before = v@;
        v.push(false);
        assert(v@.drop_last() =~= before);
        i += 1;
    }
    v
}

/// Whether the move from `p` to `q` crosses or touches a wall.
fn crosses_wall(input: &Input, p: P, q: P) -> (r: bool)
    requires
        input.wf(),
        p.bounded(),
        q.bounded(),
    ensures
        r == blocked(input.walls@, p@, q@),
{
    let mut i: usize = 0;
    while i < input.walls.len()
        invariant
            i <= input.walls.len(),
            input.wf(),
            p.bounded(),
            q.bounded(),
            forall|j: int|
                0 <= j < i ==> !segs_cross(
                    wall_a(#[trigger] input.walls[j]),
                    wall_b(input.walls[j]),
                    p@,
                    q@,
                ),
        decreases input.walls.len() - i,
    {
        let w = input.walls[i];
        if P::crs_ss((P(w.0, w.1), P(w.2, w.3)), (p, q)) {
            return true;
        }
        i += 1;
    }
    false
}

impl Sim {
    /// The state is consistent with the instance: one visited flag for each
    /// target, the position within the coordinate limit, and the scores within
    /// what the turns made and the targets visited allow.
    pub open spec fn wf(&self, input: &Input) -> bool {
        &&& self.visited.len() == input.ps.len()
        &&& self.t <= MAX_T
        &&& self.p.bounded()
        &&& -((TURN_COST + CRASH_COST) * self.t) <= self.crt_score <= TARGET_GAIN * count_true(
            self.visited@,
        ) - TURN_COST * self.t
        &&& 0 <= self.score <= TARGET_GAIN * count_true(self.visited@)
        &&& self.crt_score <= self.score
    }

    /// Whether the state is consistent with the instance.
    pub fn valid(&self, input: &Input) -> (r: bool)
        ensures
            r == self.wf(input),
    {
        if self.visited.len() != input.ps.len() || self.t > MAX_T || !in_limit(self.p.0)
            || !in_limit(self.p.1) {
            return false;
        }
        let n = self.visited.len();
        let mut count: usize = 0;
        let mut i: usize = 0;
        while i < n
            invariant
                i <= n,
                n == self.visited.len(),
                count <= i,
                count == count_true(self.visited@.take(i as int)),
            decreases n - i,
        {
            assert(self.visited@.take(i + 1).drop_last() =~= self.visited@.take(i as int));
            if self.visited[i] {
                count += 1;
            }
            i += 1;
        }
        assert(self.visited@.take(n as int) =~= self.visited@);
        let gain: i128 = TARGET_GAIN as i128;
        let cost: i128 = TURN_COST as i128;
        let loss: i128 = (TURN_COST + CRASH_COST) as i128;
        assert(gain == 1000 && cost == 2 && loss == 102);
        let gained: i128 = gain * (count as i128);
        let turns: i128 = self.t as i128;
        let crt: i128 = self.crt_score as i128;
        let best: i128 = self.score as i128;
        let least: i128 = -(loss * turns);
        let most: i128 = gained - cost * turns;
        least <= crt && crt <= most && 0 <= best && best <= gained && crt <= best
    }

    /// The simulation before the first command.
    pub fn new(input: &Input) -> (r: Sim)
        requires
            input.wf(),
        ensures
            r.wf(input),
            r@ == initial(*input),
    {
        let visited = none_visited(input.ps.len());
        Sim { visited, score: 0, crt_score: 0, p: P(input.s.0, input.s.1), v: P(0, 0), t: 0 }
    }

    /// Makes one turn with the command `mv x y`, where `mv` is `'A'` to
    /// accelerate by `(x, y)` or `'S'` to sense along `(x, y)`.
    ///
    /// Returns `1` if the move failed and `0` if not, the targets newly
    /// reached in ascending order, and what was sensed.
    pub fn query(&mut self, input: &Input, mv: char, x: i64, y: i64) -> (r: (i32, Vec<usize>, Sensed))
        requires
            input.wf(),
            old(self).wf(input),
            old(self).t < MAX_T,
            mv == 'A' || mv == 'S',
            mv == 'S' ==> P(x, y).bounded(),
        ensures
            final(self).wf(input),
            final(self)@ == step(old(self)@, *input, mv, x as int, y as int),
            r.0 == if collides(
                *input,
                old(self)@.p,
                candidate(old(self)@, *input, mv, x as int, y as int),
            ) {
                1i32
            } else {
                0i32
            },
            r.1@ == if r.0 == 1 {
                Seq::<usize>::empty()
            } else {
                new_hits(
                    *input,
                    old(self)@,
                    candidate(old(self)@, *input, mv, x as int, y as int),
                    input.ps.len() as nat,
                )
            },
            r.0 == 1 ==> final(self).p == old(self).p && final(self).v == P(0, 0),
            final(self).score >= old(self).score,
            final(self).visited.len() == old(self).visited.len(),
            forall|i: int|
                0 <= i < old(self).visited.len() && old(self).visited[i] ==> final(self).visited[i],
            mv == 'A' ==> r.2 == Sensed::Skipped,
            mv == 'S' ==> sensed_among(
                sight(*input),
                sight(*input).len() as int,
                old(self).p@,
                P(x, y)@,
                r.2,
            ),
    {
        let sensed = if mv == 'S' {
            crate::sense::sense(input, self.p, P(x, y))
        } else {
            Sensed::Skipped
        };
        let f = input.fs[self.t];
        let (ax, ay): (i128, i128) = if mv == 'A' {
            (x as i128, y as i128)
        } else {
            (0, 0)
        };
        let vx: i128 = self.v.0 as i128 + ax + f.0 as i128;
        let vy: i128 = self.v.1 as i128 + ay + f.1 as i128;
        self.crt_score -= TURN_COST;
        self.t += 1;
        let qx: i128 = self.p.0 as i128 + vx;
        let qy: i128 = self.p.1 as i128 + vy;
        let ghost s0 = old(self)@;
        let ghost cand = candidate(s0, *input, mv, x as int, y as int);
        assert(cand == Vec2 { x: qx as int, y: qy as int });
        let edge = ARENA as i128;
        if qx < -edge || edge < qx || qy < -edge || edge < qy || crosses_wall(
            input,
            self.p,
            P(qx as i64, qy as i64),
        ) {
            self.crt_score -= CRASH_COST;
            self.v = P(0, 0);
            return (1, Vec::new(), sensed);
        }
        let q = P(qx as i64, qy as i64);
        let n = input.ps.len();
        let mut hit: Vec<usize> = Vec::new();
        let mut i: usize = 0;
        while i < n
            invariant
                i <= n,
                n == input.ps.len(),
                input.wf(),
                self.visited@.len() == n,
                self.p == old(self).p,
                self.p.bounded(),
                q.bounded(),
                q@ == cand,
                s0 == old(self)@,
                old(self).wf(input),
                self.t == old(self).t + 1,
                self.score == old(self).score,
                forall|j: int|
                    0 <= j < i ==> self.visited@[j] == (s0.visited[j] || newly(*input, s0, cand, j)),
                forall|j: int| i <= j < n ==> self.visited@[j] == s0.visited[j],
                hit@ == new_hits(*input, s0, cand, i as nat),
                hit@.len() <= i,
                self.crt_score == s0.crt_score - TURN_COST + TARGET_GAIN * hit@.len(),
                count_true(self.visited@) == count_true(s0.visited) + hit@.len(),
                s0.t < MAX_T,
            decreases n - i,
        {
            let target = P(input.ps[i].0, input.ps[i].1);
            proof {
                lemma_count_bound(self.visited@);
            }
            if !self.visited[i] && P::dist2_sp((self.p, q), target).at_most(RADIUS2) {
                proof {
                    lemma_count_set(self.visited@, i as int);
                    lemma_count_bound(self.visited@.update(i as int, true));
                }
                self.visited.set(i, true);
                self.crt_score += TARGET_GAIN;
                hit.push(i);
            }
            i += 1;
        }
        self.p = q;
        self.v = P(vx as i64, vy as i64);
        let crt = self.crt_score;
        self.score.setmax(crt);
        assert(self.visited@ =~= Seq::new(
            s0.visited.len(),
            |i: int| s0.visited[i] || newly(*input, s0, cand, i),
        ));
        (0, hit, sensed)
    }
}

/// A move is blocked exactly where its path has a point in common with a
/// wall.
pub proof fn lemma_blocked_iff_touches(walls: Seq<Wall>, p: Vec2, q: Vec2)
    ensures
        blocked(walls, p, q) <==> exists|i: int|
            0 <= i < walls.len() && share_point(wall_a(#[trigger] walls[i]), wall_b(walls[i]), p, q),
{
    assert forall|i: int| 0 <= i < walls.len() implies segs_cross(
        wall_a(#[trigger] walls[i]),
        wall_b(walls[i]),
        p,
        q,
    ) == share_point(wall_a(walls[i]), wall_b(walls[i]), p, q) by {
        lemma_cross_iff_share_point(wall_a(walls[i]), wall_b(walls[i]), p, q);
    }
}

/// A move reaches a target exactly where some point of its path, `p + (m /
/// n) * (q - p)` with `0 <= m <= n`, is within the radius of the target.
pub proof fn lemma_reaches_iff_near(p: Vec2, q: Vec2, target: Vec2)
    ensures
        reaches(p, q, target) <==> exists|m: int, n: int|
            0 <= m <= n && 0 < n && #[trigger] dist2_at(p, q, target, m, n) <= RADIUS2 * (n * n),
{
    let r = seg_dist2(p, q, target);
    lemma_seg_dist2_sign(p, q, target);
    if reaches(p, q, target) {
        lemma_seg_dist2_attained(p, q, target);
        let (m, n) = choose|m: int, n: int|
            0 <= m <= n && 0 < n && r.num * (n * n) == #[trigger] dist2_at(p, q, target, m, n)
                * r.den;
        let d = dist2_at(p, q, target, m, n);
        assert(d <= RADIUS2 * (n * n)) by (nonlinear_arith)
            requires
                r.num * (n * n) == d * r.den,
                r.num <= RADIUS2 * r.den,
                r.den > 0,
                n > 0,
        ;
    }
    if exists|m: int, n: int|
        0 <= m <= n && 0 < n && #[trigger] dist2_at(p, q, target, m, n) <= RADIUS2 * (n * n) {
        let (m, n) = choose|m: int, n: int|
            0 <= m <= n && 0 < n && #[trigger] dist2_at(p, q, target, m, n) <= RADIUS2 * (n * n);
        let d = dist2_at(p, q, target, m, n);
        lemma_seg_dist2_least(p, q, target, m, n);
        assert(r.num <= RADIUS2 * r.den) by (nonlinear_arith)
            requires
                r.num * (n * n) <= d * r.den,
                d <= RADIUS2 * (n * n),
                r.den > 0,
                n > 0,
        ;
    }
}

} // verus!
