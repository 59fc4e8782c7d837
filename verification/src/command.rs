//! The commands of a solution and the rules that make them valid.

use vstd::prelude::*;
use crate::geometry::{lemma_mul_bound, P};
use crate::problem::MAX_T;

verus! {

/// A command: its letter, `'A'` to accelerate or `'S'` to sense, and its
/// vector.
pub type Command = (char, i64, i64);

/// Largest coordinate of a command.
pub const ARG_MAX: i64 = 100_000;

/// Least coordinate of a command.
pub const ARG_MIN: i64 = -100_000;

/// Largest squared length of an acceleration.
pub const ACCEL_MAX2: i64 = 250_000;

/// Largest squared length of a sensing direction.
pub const SENSE_MAX2: i64 = 10_000_000_000;

/// The command is valid: both coordinates are from [`ARG_MIN`] to [`ARG_MAX`], an
/// acceleration is at most 500 long, and a sensing direction is at most
/// 100000 long and not zero.
pub open spec fn valid_command(c: Command) -> bool {
    &&& ARG_MIN <= c.1 <= ARG_MAX
    &&& ARG_MIN <= c.2 <= ARG_MAX
    &&& c.0 == 'A' || c.0 == 'S'
    &&& c.0 == 'A' ==> c.1 * c.1 + c.2 * c.2 <= ACCEL_MAX2
    &&& c.0 == 'S' ==> c.1 * c.1 + c.2 * c.2 <= SENSE_MAX2 && !(c.1 == 0 && c.2 == 0)
}

/// The engine can make a turn with the command: its letter is `A` or `S`,
/// and a sensing direction is within the coordinate limit.
pub open spec fn playable(c: Command) -> bool {
    &&& c.0 == 'A' || c.0 == 'S'
    &&& c.0 == 'S' ==> P(c.1, c.2).bounded()
}

/// Whether the command is valid.
pub fn is_valid(c: Command) -> (r: bool)
    ensures
        r == valid_command(c),
{
    let (a, x, y) = c;
    if x < ARG_MIN || ARG_MAX < x || y < ARG_MIN || ARG_MAX < y {
        return false;
    }
    proof {
        lemma_mul_bound(x as int, x as int, ARG_MAX as int, ARG_MAX as int);
        lemma_mul_bound(y as int, y as int, ARG_MAX as int, ARG_MAX as int);
    }
    let len2 = x * x + y * y;
    (a == 'A' && len2 <= ACCEL_MAX2) || (a == 'S' && len2 <= SENSE_MAX2 && !(x == 0 && y == 0))
}

/// A solution: its commands in order.
#[derive(Debug)]
pub struct Output {
    pub out: Vec<Command>,
}

impl Output {
    /// The solution is valid: at most [`MAX_T`] commands, each of them valid.
    pub open spec fn wf(&self) -> bool {
        &&& self.out.len() <= MAX_T
        &&& forall|i: int| 0 <= i < self.out.len() ==> valid_command(#[trigger] self.out[i])
    }

    /// The engine can replay the solution: at most [`MAX_T`] commands, each
    /// of them playable. Every valid solution can be replayed.
    pub open spec fn playable(&self) -> bool {
        &&& self.out.len() <= MAX_T
        &&& forall|i: int| 0 <= i < self.out.len() ==> playable(#[trigger] self.out[i])
    }

    /// A valid solution can be replayed.
    pub proof fn lemma_valid_is_playable(&self)
        requires
            self.wf(),
        ensures
            self.playable(),
    {
        assert forall|i: int| 0 <= i < self.out.len() implies playable(#[trigger] self.out[i]) by {
            assert(valid_command(self.out[i]));
        }
    }

    /// Whether the solution is valid.
    pub fn valid(&self) -> (r: bool)
        ensures
            r == self.wf(),
    {
        if self.out.len() > MAX_T {
            return false;
        }
        let mut i: usize = 0;
        while i < self.out.len()
            invariant
                i <= self.out.len(),
                self.out.len() <= MAX_T,
                forall|j: int| 0 <= j < i ==> valid_command(#[trigger] self.out[j]),
            decreases self.out.len() - i,
        {
            if !is_valid(self.out[i]) {
                return false;
            }
            i += 1;
        }
        true
    }
}

} // verus!
