//! The problem instance: arena, targets, walls, start position and the drift
//! applied on each turn.

use vstd::prelude::*;
use crate::geometry::{P, Vec2};

verus! {

/// Number of turns for which an instance carries drift, and the most commands
/// a solution may hold.
pub const MAX_T: usize = 5000;

/// The arena is the closed square of this half-width around the origin.
pub const ARENA: i64 = 100_000;

/// Most targets an instance may hold: with more, the score could leave the
/// 64-bit range.
pub const MAX_TARGETS: u64 = 9_000_000_000_000_000;

/// A wall: the coordinates `(x1, y1, x2, y2)` of its two endpoints.
pub type Wall = (i64, i64, i64, i64);

/// The mathematical value of an integer point.
pub open spec fn pt(c: (i64, i64)) -> Vec2 {
    Vec2 { x: c.0 as int, y: c.1 as int }
}

/// First endpoint of a wall.
pub open spec fn wall_a(w: Wall) -> Vec2 {
    Vec2 { x: w.0 as int, y: w.1 as int }
}

/// Second endpoint of a wall.
pub open spec fn wall_b(w: Wall) -> Vec2 {
    Vec2 { x: w.2 as int, y: w.3 as int }
}

/// Both endpoints of the wall are within the coordinate limit.
pub open spec fn wall_bounded(w: Wall) -> bool {
    P(w.0, w.1).bounded() && P(w.2, w.3).bounded()
}

/// A problem instance.
#[allow(non_snake_case)]
#[derive(Debug)]
pub struct Input {
    /// Number of targets.
    pub N: usize,
    /// Number of walls.
    pub M: usize,
    /// Start position.
    pub s: (i64, i64),
    /// The targets; a target is known by its index.
    pub ps: Vec<(i64, i64)>,
    /// The walls.
    pub walls: Vec<Wall>,
    /// The drift added to the velocity on each turn.
    pub fs: Vec<(i64, i64)>,
}

impl Input {
    /// The instance is well formed: the counts match the lists, drift is given
    /// for every turn, and start, targets and walls are within the coordinate
    /// limit.
    pub open spec fn wf(&self) -> bool {
        &&& self.N == self.ps.len()
        &&& self.M == self.walls.len()
        &&& self.fs.len() == MAX_T
        &&& self.ps.len() <= MAX_TARGETS
        &&& P(self.s.0, self.s.1).bounded()
        &&& forall|i: int| 0 <= i < self.ps.len() ==> P(self.ps[i].0, self.ps[i].1).bounded()
        &&& forall|i: int| 0 <= i < self.walls.len() ==> wall_bounded(#[trigger] self.walls[i])
    }

    /// Whether the instance is well formed.
    pub fn valid(&self) -> (r: bool)
        ensures
            r == self.wf(),
    {
        if self.N != self.ps.len() || self.M != self.walls.len() || self.fs.len() != MAX_T
            || self.ps.len() as u64 > MAX_TARGETS || !in_limit(self.s.0) || !in_limit(self.s.1) {
            return false;
        }
        let mut i: usize = 0;
        while i < self.ps.len()
            invariant
                i <= self.ps.len(),
                forall|j: int| 0 <= j < i ==> P(self.ps[j].0, self.ps[j].1).bounded(),
            decreases self.ps.len() - i,
        {
            if !in_limit(self.ps[i].0) || !in_limit(self.ps[i].1) {
                return false;
            }
            i += 1;
        }
        let mut k: usize = 0;
        while k < self.walls.len()
            invariant
                k <= self.walls.len(),
                forall|j: int| 0 <= j < k ==> wall_bounded(#[trigger] self.walls[j]),
            decreases self.walls.len() - k,
        {
            let w = self.walls[k];
            if !in_limit(w.0) || !in_limit(w.1) || !in_limit(w.2) || !in_limit(w.3) {
                return false;
            }
            k += 1;
        }
        true
    }
}

/// Whether a coordinate is within the coordinate limit.
pub fn in_limit(c: i64) -> (r: bool)
    ensures
        r == (-crate::geometry::COORD_MAX <= c <= crate::geometry::COORD_MAX),
{
    -crate::geometry::COORD_MAX <= c && c <= crate::geometry::COORD_MAX
}

} // verus!
