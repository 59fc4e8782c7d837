//! Replaying a solution: the state after a number of its commands.

use vstd::prelude::*;
use crate::command::{Command, Output};
use crate::geometry::{P, Vec2};
use crate::problem::Input;
use crate::sim::{
    candidate, collides, initial, new_hits, newly, step, Sim, SimState,
};

verus! {

/// The state after the first `n` commands of `cmds`.
pub open spec fn run(input: Input, cmds: Seq<Command>, n: nat) -> SimState
    decreases n,
{
    if n == 0 {
        initial(input)
    } else {
        let c = cmds[n - 1];
        step(run(input, cmds, (n - 1) as nat), input, c.0, c.1 as int, c.2 as int)
    }
}

/// The number of commands that a replay up to `t` makes: `t`, or all of them
/// if there are fewer.
pub open spec fn clamp(t: int, len: int) -> nat {
    if t < len {
        t as nat
    } else {
        len as nat
    }
}

/// Replays the first `t` commands of the solution, or all of them if it has
/// fewer, from the initial state.
///
/// Returns the state reached and the position from which the last of these
/// commands was made; that is the origin where no command was made.
pub fn replay(input: &Input, output: &Output, t: usize) -> (r: (Sim, P))
    requires
        input.wf(),
        output.playable(),
    ensures
        r.0.wf(input),
        r.0@ == run(*input, output.out@, clamp(t as int, output.out.len() as int)),
        r.1@ == if clamp(t as int, output.out.len() as int) == 0 {
            Vec2 { x: 0, y: 0 }
        } else {
            run(
                *input,
                output.out@,
                (clamp(t as int, output.out.len() as int) - 1) as nat,
            ).p
        },
{
    let n = if t < output.out.len() {
        t
    } else {
        output.out.len()
    };
    let mut sim = Sim::new(input);
    let mut sp = P(0, 0);
    let mut turn: usize = 0;
    while turn < n
        invariant
            turn <= n,
            n <= output.out.len(),
            input.wf(),
            output.playable(),
            sim.wf(input),
            sim.t == turn,
            sim@ == run(*input, output.out@, turn as nat),
            sp@ == if turn == n && n > 0 {
                run(*input, output.out@, (n - 1) as nat).p
            } else {
                Vec2 { x: 0, y: 0 }
            },
        decreases n - turn,
    {
        if turn == n - 1 {
            sp = sim.p;
        }
        let (mv, x, y) = output.out[turn];
        assert(crate::command::playable(output.out[turn as int]));
        sim.query(input, mv, x, y);
        turn += 1;
    }
    (sim, sp)
}

/// The number of commands in the solution. Nothing is simulated.
pub fn command_count(input: &Input, output: &Output) -> (n: usize)
    ensures
        n == output.out.len(),
{
    output.out.len()
}

/// One step never lowers the best score, never unmarks a target, and makes
/// exactly one turn.
pub proof fn lemma_step_monotone(s: SimState, input: Input, mv: char, x: int, y: int)
    ensures
        step(s, input, mv, x, y).score >= s.score,
        step(s, input, mv, x, y).visited.len() == s.visited.len(),
        forall|i: int|
            0 <= i < s.visited.len() && s.visited[i] ==> #[trigger] step(
                s,
                input,
                mv,
                x,
                y,
            ).visited[i],
        step(s, input, mv, x, y).t == s.t + 1,
{
}

/// A step whose move fails leaves the position as it was and the velocity
/// zero, costs the turn and the failure, and leaves the best score and the
/// visited targets alone.
pub proof fn lemma_collision_stops(s: SimState, input: Input, mv: char, x: int, y: int)
    requires
        collides(input, s.p, candidate(s, input, mv, x, y)),
    ensures
        step(s, input, mv, x, y).p == s.p,
        step(s, input, mv, x, y).v == (Vec2 { x: 0, y: 0 }),
        step(s, input, mv, x, y).crt_score == s.crt_score - 102,
        step(s, input, mv, x, y).score == s.score,
        step(s, input, mv, x, y).visited == s.visited,
{
}

/// Along a replay the best score never falls and no target is ever unmarked:
/// what holds after `a` commands still holds after `b >= a`.
pub proof fn lemma_run_monotone(input: Input, cmds: Seq<Command>, a: nat, b: nat)
    requires
        a <= b,
    ensures
        run(input, cmds, a).score <= run(input, cmds, b).score,
        run(input, cmds, a).visited.len() == run(input, cmds, b).visited.len(),
        forall|i: int|
            0 <= i < run(input, cmds, a).visited.len() && run(input, cmds, a).visited[i]
                ==> #[trigger] run(input, cmds, b).visited[i],
        run(input, cmds, b).t == run(input, cmds, a).t + (b - a),
    decreases b - a,
{
    if a < b {
        let c = cmds[b - 1];
        lemma_run_monotone(input, cmds, a, (b - 1) as nat);
        lemma_step_monotone(run(input, cmds, (b - 1) as nat), input, c.0, c.1 as int, c.2 as int);
    }
}

/// After `n` commands, `n` turns were made, and the best score is the highest
/// running score so far: no running score was higher, and one was as high.
pub proof fn lemma_best_is_max(input: Input, cmds: Seq<Command>, n: nat)
    ensures
        run(input, cmds, n).t == n,
        forall|k: nat| k <= n ==> (#[trigger] run(input, cmds, k)).crt_score <= run(input, cmds, n).score,
        exists|k: nat| k <= n && (#[trigger] run(input, cmds, k)).crt_score == run(input, cmds, n).score,
    decreases n,
{
    if n == 0 {
        assert(run(input, cmds, 0).crt_score == run(input, cmds, 0).score);
    } else {
        let m = (n - 1) as nat;
        lemma_best_is_max(input, cmds, m);
        let before = run(input, cmds, m);
        let after = run(input, cmds, n);
        let k0 = choose|k: nat| k <= m && (#[trigger] run(input, cmds, k)).crt_score == before.score;
        assert(before.crt_score <= before.score);
        if after.score == before.score {
            assert(k0 <= n && run(input, cmds, k0).crt_score == after.score);
        } else {
            assert(run(input, cmds, n).crt_score == after.score);
        }
        assert forall|k: nat| k <= n implies (#[trigger] run(input, cmds, k)).crt_score
            <= after.score by {
            if k < n {
                assert(run(input, cmds, k).crt_score <= before.score);
            }
        }
    }
}

/// A replay is a function of the instance and of the commands it makes: two
/// solutions that agree on their first `n` commands reach the same state
/// after `n` turns.
pub proof fn lemma_run_prefix(input: Input, c1: Seq<Command>, c2: Seq<Command>, n: nat)
    requires
        n <= c1.len(),
        n <= c2.len(),
        forall|i: int| 0 <= i < n ==> c1[i] == c2[i],
    ensures
        run(input, c1, n) == run(input, c2, n),
    decreases n,
{
    if n > 0 {
        lemma_run_prefix(input, c1, c2, (n - 1) as nat);
    }
}

/// The newly reached targets are listed in ascending order, each once, and
/// they are exactly the targets that the move newly reaches.
pub proof fn lemma_new_hits(input: Input, s: SimState, q: Vec2, n: nat)
    requires
        n <= usize::MAX,
    ensures
        new_hits(input, s, q, n).len() <= n,
        forall|k: int|
            0 <= k < new_hits(input, s, q, n).len() ==> 0 <= #[trigger] new_hits(input, s, q, n)[k]
                < n && newly(input, s, q, new_hits(input, s, q, n)[k] as int),
        forall|k: int, l: int|
            0 <= k < l < new_hits(input, s, q, n).len() ==> new_hits(input, s, q, n)[k] < new_hits(
                input,
                s,
                q,
                n,
            )[l],
        forall|i: int|
            0 <= i < n && newly(input, s, q, i) ==> new_hits(input, s, q, n).contains(i as usize),
    decreases n,
{
    if n > 0 {
        let rest = new_hits(input, s, q, (n - 1) as nat);
        lemma_new_hits(input, s, q, (n - 1) as nat);
        let all = new_hits(input, s, q, n);
        assert forall|i: int| 0 <= i < n && newly(input, s, q, i) implies all.contains(
            i as usize,
        ) by {
            if i < n - 1 {
                let k = choose|k: int| 0 <= k < rest.len() && rest[k] == i as usize;
                assert(all[k] == i as usize);
            } else {
                assert(all[all.len() - 1] == i as usize);
            }
        }
    }
}

} // verus!
