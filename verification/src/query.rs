//! The two questions that a host asks of an instance and a solution, both
//! given as text: what is the state after a turn, and how many turns are
//! there.

use vstd::prelude::*;
use crate::command::Command;
use crate::geometry::{P, Vec2};
use crate::instance::{in_bounds, instance, parse_input, reads, Noise};
use crate::parse::{parse_output, solution, ParseError};
use crate::problem::{Input, MAX_T};
use crate::replay::{clamp, replay, run};
use crate::sim::Sim;

verus! {

/// The number of commands to replay for the state after turn `t`, before it
/// is held to the length of the solution: `t + 1`, in the arithmetic of
/// `usize`. So there is none for `-1`, and every command for a turn below.
pub open spec fn turns(t: i32) -> int {
    if t >= -1 {
        t + 1
    } else {
        usize::MAX + t + 2
    }
}

/// The number of commands to replay for the state after turn `t`.
pub fn turns_of(t: i32) -> (n: usize)
    ensures
        n == turns(t) || (n == usize::MAX && turns(t) >= MAX_T),
{
    if t >= 0 {
        t as usize + 1
    } else if t == -1 {
        0
    } else {
        usize::MAX
    }
}

/// What a host needs to draw the state after a turn.
pub struct Frame {
    /// The instance.
    pub input: Input,
    /// Its noise parameters, as they are written.
    pub noise: Noise,
    /// The state after the turn.
    pub sim: Sim,
    /// The position from which the turn was made; the origin where no turn
    /// was made.
    pub sp: P,
}

/// The frame is what the two texts give for turn `t`: their instance, within
/// bounds, and the replay of their solution.
pub open spec fn shows(frame: Frame, input: Seq<char>, output: Seq<char>, t: i32) -> bool {
    &&& instance(input) matches Ok(v) && reads(frame.input, frame.noise, v) && in_bounds(v)
    &&& frame.input.wf()
    &&& frame.sim.wf(&frame.input)
    &&& solution(output) matches Ok(cmds) && frame.sim@ == run(
        frame.input,
        cmds,
        clamp(turns(t), cmds.len() as int),
    ) && frame.sp@ == if clamp(turns(t), cmds.len() as int) == 0 {
        Vec2 { x: 0, y: 0 }
    } else {
        run(frame.input, cmds, (clamp(turns(t), cmds.len() as int) - 1) as nat).p
    }
}

/// Reads an instance and a solution and replays the solution up to turn `t`,
/// the turns counted from zero.
///
/// The instance is read first. It is out of range where it is not well
/// formed. Then the solution is read.
pub fn vis(input: &str, output: &str, t: i32) -> (r: Result<Frame, ParseError>)
    ensures
        match r {
            Err(e) => match instance(input@) {
                Err(e1) => e == e1,
                Ok(v) => if in_bounds(v) {
                    solution(output@) == Err::<Seq<Command>, ParseError>(e)
                } else {
                    e == ParseError::OutOfRange
                },
            },
            Ok(frame) => shows(frame, input@, output@, t),
        },
{
    let (core, noise) = match parse_input(input) {
        Err(e) => {
            return Err(e);
        },
        Ok(x) => x,
    };
    if !core.valid() {
        return Err(ParseError::OutOfRange);
    }
    let out = match parse_output(&core, output) {
        Err(e) => {
            return Err(e);
        },
        Ok(out) => out,
    };
    proof {
        out.lemma_valid_is_playable();
    }
    let (sim, sp) = replay(&core, &out, turns_of(t));
    Ok(Frame { input: core, noise, sim, sp })
}

/// Reads an instance and a solution and counts the commands of the
/// solution. Nothing is replayed.
pub fn get_max_turn(input: &str, output: &str) -> (r: Result<i32, ParseError>)
    ensures
        match r {
            Err(e) => match instance(input@) {
                Err(e1) => e == e1,
                Ok(v) => solution(output@) == Err::<Seq<Command>, ParseError>(e),
            },
            Ok(n) => instance(input@) is Ok && (solution(output@) matches Ok(cmds) && n
                == cmds.len()),
        },
{
    let (core, _) = match parse_input(input) {
        Err(e) => {
            return Err(e);
        },
        Ok(x) => x,
    };
    match parse_output(&core, output) {
        Err(e) => Err(e),
        Ok(out) => Ok(out.out.len() as i32),
    }
}

} // verus!
