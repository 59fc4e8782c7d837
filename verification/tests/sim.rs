use agent_replay::command::{is_valid, Output};
use agent_replay::geometry::P;
use agent_replay::parse::parse_output;
use agent_replay::problem::{in_limit, Input};
use agent_replay::replay::replay;
use agent_replay::sense::{sense, Sensed};
use agent_replay::sim::Sim;

fn instance(
    s: (i64, i64),
    ps: Vec<(i64, i64)>,
    walls: Vec<(i64, i64, i64, i64)>,
) -> Input {
    Input { N: ps.len(), M: walls.len(), s, ps, walls, fs: vec![(0, 0); 5000] }
}

fn sensed_distance(x: i64, y: i64, alpha: f64, r: Sensed) -> i64 {
    match r {
        Sensed::Skipped => -1,
        Sensed::Clear => (1e9 * alpha).round() as i64,
        Sensed::Wall { num, den } => {
            let len = ((x * x + y * y) as f64).sqrt();
            (len * num as f64 / den as f64 * alpha).round() as i64
        }
    }
}

#[test]
fn instance_validity() {
    assert!(instance((0, 0), vec![(1, 2)], vec![(0, 0, 5, 5)]).valid());
    assert!(instance((1_000_000_000, -1_000_000_000), vec![], vec![]).valid());
    assert!(!instance((1_000_000_001, 0), vec![], vec![]).valid());
    assert!(!instance((0, 0), vec![(0, -1_000_000_001)], vec![]).valid());
    assert!(!instance((0, 0), vec![], vec![(0, 0, 0, 1_000_000_001)]).valid());
    let mut short = instance((0, 0), vec![], vec![]);
    short.fs.pop();
    assert!(!short.valid());
    let mut miscounted = instance((0, 0), vec![(1, 1)], vec![]);
    miscounted.N = 2;
    assert!(!miscounted.valid());
    let mut miscounted = instance((0, 0), vec![], vec![(0, 0, 1, 1)]);
    miscounted.M = 0;
    assert!(!miscounted.valid());
    // Drift is not limited.
    let mut windy = instance((0, 0), vec![], vec![]);
    windy.fs[17] = (i64::MAX, i64::MIN);
    assert!(windy.valid());
}

#[test]
fn command_validity() {
    assert!(is_valid(('A', 500, 0)));
    assert!(is_valid(('A', -300, 400)));
    assert!(is_valid(('A', 0, 0)));
    assert!(!is_valid(('A', 500, 1)));
    assert!(!is_valid(('A', 100_001, 0)));
    assert!(is_valid(('S', 100_000, 0)));
    assert!(is_valid(('S', -60_000, 80_000)));
    assert!(!is_valid(('S', 100_000, 1)));
    assert!(!is_valid(('S', 0, 0)));
    assert!(!is_valid(('S', 0, -100_001)));
    assert!(!is_valid(('B', 1, 1)));
    assert!(!is_valid(('A', i64::MAX, i64::MIN)));
    assert!(Output { out: vec![] }.valid());
    assert!(Output { out: vec![('A', 1, 1); 5000] }.valid());
    assert!(!Output { out: vec![('A', 1, 1); 5001] }.valid());
    assert!(!Output { out: vec![('A', 1, 1), ('S', 0, 0)] }.valid());
}

#[test]
fn coordinate_limit() {
    assert!(in_limit(0));
    assert!(in_limit(1_000_000_000));
    assert!(in_limit(-1_000_000_000));
    assert!(!in_limit(1_000_000_001));
    assert!(!in_limit(-1_000_000_001));
}

#[test]
fn state_validity() {
    let input = instance((0, 0), vec![(0, 0), (5000, 0)], vec![]);
    let mut sim = Sim::new(&input);
    assert!(sim.valid(&input));
    sim.query(&input, 'A', 0, 0);
    assert!(sim.valid(&input));
    assert!(!sim.valid(&instance((0, 0), vec![(0, 0)], vec![])));
    let mut s = Sim::new(&input);
    s.crt_score = 1;
    assert!(!s.valid(&input));
    let mut s = Sim::new(&input);
    s.score = 1;
    assert!(!s.valid(&input));
    let mut s = Sim::new(&input);
    s.score = -1;
    s.crt_score = -1;
    assert!(!s.valid(&input));
    let mut s = Sim::new(&input);
    s.crt_score = -1;
    assert!(!s.valid(&input));
    s.t = 1;
    assert!(!s.valid(&input));
    s.crt_score = -2;
    assert!(s.valid(&input));
    s.crt_score = -102;
    assert!(s.valid(&input));
    s.crt_score = -103;
    assert!(!s.valid(&input));
    let mut s = Sim::new(&input);
    s.visited[1] = true;
    s.score = 1000;
    s.crt_score = 1000;
    assert!(s.valid(&input));
    s.score = 1001;
    assert!(!s.valid(&input));
    let mut s = Sim::new(&input);
    s.p.0 = 1_000_000_001;
    assert!(!s.valid(&input));
    let mut s = Sim::new(&input);
    s.t = 5001;
    s.crt_score = -10002;
    assert!(!s.valid(&input));
    s.t = 5000;
    s.crt_score = -10000;
    assert!(s.valid(&input));
}

#[test]
fn initial_state() {
    let input = instance((-2000, 7), vec![(0, 0), (5, 5)], vec![]);
    let sim = Sim::new(&input);
    assert_eq!(sim.visited, vec![false, false]);
    assert_eq!(sim.score, 0);
    assert_eq!(sim.crt_score, 0);
    assert_eq!(sim.p, P(-2000, 7));
    assert_eq!(sim.v, P(0, 0));
    assert_eq!(sim.t, 0);
}

#[test]
fn reach_the_target_then_drift_on() {
    let input = instance((-2000, 0), vec![(0, 0)], vec![]);
    let mut sim = Sim::new(&input);

    let r = sim.query(&input, 'A', 2000, 0);
    assert_eq!(r, (0, vec![0], Sensed::Skipped));
    assert_eq!(sim.v, P(2000, 0));
    assert_eq!(sim.p, P(0, 0));
    assert_eq!(sim.visited, vec![true]);
    assert_eq!(sim.crt_score, 998);
    assert_eq!(sim.score, 998);
    assert_eq!(sim.t, 1);

    let r = sim.query(&input, 'A', 0, 0);
    assert_eq!(r, (0, vec![], Sensed::Skipped));
    assert_eq!(sim.v, P(2000, 0));
    assert_eq!(sim.p, P(2000, 0));
    assert_eq!(sim.visited, vec![true]);
    assert_eq!(sim.crt_score, 996);
    assert_eq!(sim.score, 998);
    assert_eq!(sim.t, 2);
}

#[test]
fn target_at_the_edge_of_the_radius() {
    // The path passes at distance exactly 1000: reached.
    let input = instance((0, 0), vec![(50, 1000), (50, 1001), (-1000, 0), (-1001, 0)], vec![]);
    let mut sim = Sim::new(&input);
    let r = sim.query(&input, 'A', 100, 0);
    assert_eq!(r.1, vec![0, 2]);
    assert_eq!(sim.visited, vec![true, false, true, false]);
    assert_eq!(sim.crt_score, 1998);
}

#[test]
fn target_off_an_oblique_path() {
    // Path from (0,0) to (300,400); the point (800,-600) is at distance 1000
    // from the line, with its foot at the origin; (801,-600) has its foot
    // before the origin and is farther than 1000 from it.
    let input = instance((0, 0), vec![(800, -600), (801, -600), (-503, 1004)], vec![]);
    let mut sim = Sim::new(&input);
    let r = sim.query(&input, 'A', 300, 400);
    assert_eq!(r.1, vec![0]);
    assert_eq!(sim.visited, vec![true, false, false]);
}

#[test]
fn several_targets_in_one_turn_in_ascending_order() {
    let input = instance((0, 0), vec![(400, 0), (5000, 0), (100, 100), (0, 0)], vec![]);
    let mut sim = Sim::new(&input);
    let r = sim.query(&input, 'A', 500, 0);
    assert_eq!(r, (0, vec![0, 2, 3], Sensed::Skipped));
    assert_eq!(sim.crt_score, 2998);
    assert_eq!(sim.score, 2998);
    // A target is gained once.
    let r = sim.query(&input, 'A', -500, 0);
    assert_eq!(r, (0, vec![], Sensed::Skipped));
    assert_eq!(sim.crt_score, 2996);
    assert_eq!(sim.score, 2998);
    assert_eq!(sim.visited, vec![true, false, true, true]);
}

#[test]
fn collision_with_a_wall() {
    let input = instance((0, 0), vec![(400, 0)], vec![(200, -50, 200, 50)]);
    let mut sim = Sim::new(&input);
    let r = sim.query(&input, 'A', 500, 0);
    assert_eq!(r, (1, vec![], Sensed::Skipped));
    assert_eq!(sim.p, P(0, 0));
    assert_eq!(sim.v, P(0, 0));
    assert_eq!(sim.crt_score, -102);
    assert_eq!(sim.score, 0);
    assert_eq!(sim.visited, vec![false]);
    assert_eq!(sim.t, 1);
}

#[test]
fn touching_a_wall_is_a_collision() {
    let input = instance((0, 0), vec![], vec![(200, 0, 200, 50)]);
    let mut sim = Sim::new(&input);
    assert_eq!(sim.query(&input, 'A', 200, 0).0, 1);
    assert_eq!(sim.query(&input, 'A', 199, 0).0, 0);
    assert_eq!(sim.p, P(199, 0));
}

#[test]
fn leaving_the_arena_is_a_collision() {
    let input = instance((99_900, 0), vec![], vec![]);
    let mut sim = Sim::new(&input);
    assert_eq!(sim.query(&input, 'A', 100, 0).0, 0);
    assert_eq!(sim.p, P(100_000, 0));
    assert_eq!(sim.v, P(100, 0));
    let r = sim.query(&input, 'A', -99, 0);
    assert_eq!(r.0, 1);
    assert_eq!(sim.p, P(100_000, 0));
    assert_eq!(sim.v, P(0, 0));
    assert_eq!(sim.crt_score, -104);
    assert_eq!(sim.score, 0);
}

#[test]
fn best_score_is_kept_after_losses() {
    let input = instance((0, 0), vec![(0, 0)], vec![(0, 50, 100, 50)]);
    let mut sim = Sim::new(&input);
    sim.query(&input, 'A', 0, 0);
    assert_eq!((sim.crt_score, sim.score), (998, 998));
    let mut best = sim.score;
    for _ in 0..20 {
        let r = sim.query(&input, 'A', 0, 100);
        assert_eq!(r.0, 1);
        assert!(sim.score >= best);
        best = sim.score;
        assert_eq!(sim.visited, vec![true]);
    }
    assert_eq!(sim.crt_score, 998 - 20 * 102);
    assert_eq!(sim.score, 998);
}

#[test]
fn drift_is_added_on_every_turn() {
    let mut input = instance((0, 0), vec![], vec![]);
    input.fs[0] = (3, -4);
    input.fs[1] = (10, 10);
    let mut sim = Sim::new(&input);
    sim.query(&input, 'A', 100, 0);
    assert_eq!(sim.v, P(103, -4));
    assert_eq!(sim.p, P(103, -4));
    let r = sim.query(&input, 'S', 0, 1);
    assert_eq!(r.0, 0);
    assert_eq!(sim.v, P(113, 6));
    assert_eq!(sim.p, P(216, 2));
}

#[test]
fn drift_beyond_every_bound_is_a_collision() {
    let mut input = instance((0, 0), vec![], vec![]);
    input.fs[0] = (i64::MAX, i64::MIN);
    input.fs[1] = (i64::MIN, i64::MAX);
    let mut sim = Sim::new(&input);
    assert_eq!(sim.query(&input, 'A', 500, 0).0, 1);
    assert_eq!((sim.p, sim.v), (P(0, 0), P(0, 0)));
    assert_eq!(sim.query(&input, 'A', -500, 0).0, 1);
    assert_eq!((sim.p, sim.v), (P(0, 0), P(0, 0)));
    assert_eq!(sim.query(&input, 'A', 1, 1).0, 0);
    assert_eq!((sim.p, sim.v), (P(1, 1), P(1, 1)));
}

#[test]
fn sense_a_wall_ahead() {
    let input = instance((0, 0), vec![], vec![(500, -100, 500, 100)]);
    let mut sim = Sim::new(&input);
    let r = sim.query(&input, 'S', 1, 0);
    assert_eq!(r.0, 0);
    assert_eq!(r.1, Vec::<usize>::new());
    assert_eq!(r.2, Sensed::Wall { num: 100_000, den: 200 });
    assert_eq!(sensed_distance(1, 0, 1.0, r.2), 500);
    // Sensing costs a turn and moves nothing at rest.
    assert_eq!(sim.p, P(0, 0));
    assert_eq!(sim.v, P(0, 0));
    assert_eq!(sim.crt_score, -2);
    assert_eq!(sim.t, 1);
}

#[test]
fn sense_scales_with_the_direction() {
    let input = instance((0, 0), vec![], vec![(500, -100, 500, 100)]);
    let r = sense(&input, P(0, 0), P(10, 0));
    assert_eq!(sensed_distance(10, 0, 1.0, r), 500);
    let r = sense(&input, P(0, 0), P(100_000, 0));
    assert_eq!(sensed_distance(100_000, 0, 1.0, r), 500);
    let r = sense(&input, P(0, 0), P(3, 0));
    assert_eq!(sensed_distance(3, 0, 1.1, r), 550);
}

#[test]
fn sense_the_arena_where_no_wall_is_ahead() {
    let input = instance((0, 0), vec![], vec![(500, -100, 500, 100)]);
    // Away from the wall: the left side of the arena.
    assert_eq!(sensed_distance(-1, 0, 1.0, sense(&input, P(0, 0), P(-1, 0))), 100_000);
    // Past the end of the wall: the right side of the arena.
    let r = sense(&input, P(0, 101), P(1, 0));
    assert_eq!(sensed_distance(1, 0, 1.0, r), 100_000);
    // Upward.
    assert_eq!(sensed_distance(0, 5, 1.0, sense(&input, P(10, 20), P(0, 5))), 99_980);
    // Into a corner: 100000 * sqrt(2).
    assert_eq!(sensed_distance(1, 1, 1.0, sense(&input, P(0, 0), P(1, 1))), 141_421);
}

#[test]
fn sense_the_nearest_of_several_walls() {
    let input = instance(
        (0, 0),
        vec![],
        vec![(900, -100, 900, 100), (300, -100, 300, 100), (600, -100, 600, 100), (-50, -5, -50, 5)],
    );
    let r = sense(&input, P(0, 0), P(2, 0));
    assert_eq!(sensed_distance(2, 0, 1.0, r), 300);
    assert_eq!(r, Sensed::Wall { num: 60_000, den: 400 });
}

#[test]
fn sense_keeps_the_first_of_two_walls_as_near() {
    // Both walls are met at distance 300; the first one gives the fraction.
    let input = instance((0, 0), vec![], vec![(300, -100, 300, 100), (300, -1, 300, 1)]);
    assert_eq!(sense(&input, P(0, 0), P(1, 0)), Sensed::Wall { num: 60_000, den: 200 });
    let input = instance((0, 0), vec![], vec![(300, -1, 300, 1), (300, -100, 300, 100)]);
    assert_eq!(sense(&input, P(0, 0), P(1, 0)), Sensed::Wall { num: 600, den: 2 });
}

#[test]
fn sense_a_wall_end() {
    // The ray passes through the very end of the wall.
    let input = instance((0, 0), vec![], vec![(400, 0, 400, 100)]);
    assert_eq!(sensed_distance(1, 0, 1.0, sense(&input, P(0, 0), P(1, 0))), 400);
    assert_eq!(sensed_distance(1, 0, 1.0, sense(&input, P(0, -1), P(1, 0))), 100_000);
}

#[test]
fn sense_along_a_wall_meets_the_arena() {
    let input = instance((0, 0), vec![], vec![(100, 0, 200, 0)]);
    assert_eq!(sensed_distance(1, 0, 1.0, sense(&input, P(0, 0), P(1, 0))), 100_000);
}

#[test]
fn sense_from_outside_the_arena_may_meet_nothing() {
    let input = instance((200_000, 0), vec![], vec![]);
    assert_eq!(sense(&input, P(200_000, 0), P(1, 0)), Sensed::Clear);
    assert_eq!(sensed_distance(1, 0, 0.5, Sensed::Clear), 500_000_000);
    // Toward the arena: its right side, then its left side behind it.
    assert_eq!(sensed_distance(-1, 0, 1.0, sense(&input, P(200_000, 0), P(-1, 0))), 100_000);
}

#[test]
fn sense_with_a_zero_direction_meets_nothing() {
    let input = instance((0, 0), vec![], vec![(500, -100, 500, 100)]);
    assert_eq!(sense(&input, P(0, 0), P(0, 0)), Sensed::Clear);
}

#[test]
fn replay_reaches_the_target_then_drifts_on() {
    let input = instance((-2000, 0), vec![(0, 0)], vec![]);
    let out = Output { out: vec![('A', 2000, 0), ('A', 0, 0)] };
    let (sim, sp) = replay(&input, &out, 1);
    assert_eq!((sim.p, sim.v, sim.crt_score, sim.score), (P(0, 0), P(2000, 0), 998, 998));
    assert_eq!(sim.visited, vec![true]);
    assert_eq!(sp, P(-2000, 0));
    let (sim, sp) = replay(&input, &out, 2);
    assert_eq!((sim.p, sim.v, sim.crt_score, sim.score), (P(2000, 0), P(2000, 0), 996, 998));
    assert_eq!(sim.visited, vec![true]);
    assert_eq!(sp, P(0, 0));
}

#[test]
fn replay_prefixes() {
    let input = instance((-2000, 0), vec![(0, 0)], vec![]);
    let out = Output { out: vec![('A', 500, 0), ('S', 1, 0), ('A', 0, 0), ('A', 0, 0)] };

    let (sim, sp) = replay(&input, &out, 0);
    assert_eq!((sim.p, sim.v, sim.t, sim.score), (P(-2000, 0), P(0, 0), 0, 0));
    assert_eq!(sp, P(0, 0));

    let (sim, sp) = replay(&input, &out, 1);
    assert_eq!((sim.p, sim.v, sim.t, sim.score), (P(-1500, 0), P(500, 0), 1, 0));
    assert_eq!(sp, P(-2000, 0));
    assert_eq!(sim.crt_score, -2);

    let (sim, sp) = replay(&input, &out, 2);
    assert_eq!((sim.p, sim.v, sim.t, sim.score), (P(-1000, 0), P(500, 0), 2, 996));
    assert_eq!(sp, P(-1500, 0));
    assert_eq!(sim.visited, vec![true]);

    let (sim, sp) = replay(&input, &out, 4);
    assert_eq!((sim.p, sim.v, sim.t, sim.score), (P(0, 0), P(500, 0), 4, 996));
    assert_eq!(sp, P(-500, 0));
    assert_eq!(sim.crt_score, 992);
}

#[test]
fn replay_is_clamped_to_the_solution() {
    let input = instance((-2000, 0), vec![(0, 0)], vec![]);
    let out = Output { out: vec![('A', 500, 0), ('S', 1, 0), ('A', 0, 0), ('A', 0, 0)] };
    let (all, sp_all) = replay(&input, &out, 4);
    for t in [5usize, 6, 5000, usize::MAX] {
        let (sim, sp) = replay(&input, &out, t);
        assert_eq!(sim.visited, all.visited);
        assert_eq!(
            (sim.p, sim.v, sim.t, sim.score, sim.crt_score),
            (all.p, all.v, all.t, all.score, all.crt_score)
        );
        assert_eq!(sp, sp_all);
    }
}

#[test]
fn replay_twice_gives_the_same_state() {
    let mut input = instance(
        (-2000, 0),
        vec![(0, 0), (3000, 3000), (-5000, 100)],
        vec![(1000, -500, 1000, 500)],
    );
    for (i, f) in input.fs.iter_mut().enumerate() {
        *f = ((i as i64 * 37) % 11 - 5, (i as i64 * 53) % 13 - 6);
    }
    let text = "A 400 0\nS 1 1\nA 100 300\nA -500 0\nS -1 0\nA 0 -500\nA 300 400\n";
    let out = parse_output(&input, text).unwrap();
    for t in 0..=out.out.len() {
        let (a, sa) = replay(&input, &out, t);
        let (b, sb) = replay(&input, &out, t);
        assert_eq!(a.visited, b.visited);
        assert_eq!(
            (a.p, a.v, a.t, a.score, a.crt_score),
            (b.p, b.v, b.t, b.score, b.crt_score)
        );
        assert_eq!(sa, sb);
    }
}

#[test]
fn best_score_and_visited_only_grow_along_a_replay() {
    let mut input = instance(
        (-2000, 0),
        vec![(0, 0), (3000, 3000), (-5000, 100), (-1500, 200)],
        vec![(1000, -500, 1000, 500)],
    );
    for (i, f) in input.fs.iter_mut().enumerate() {
        *f = ((i as i64 * 37) % 11 - 5, (i as i64 * 53) % 13 - 6);
    }
    let mut out = Output { out: vec![] };
    for i in 0..200i64 {
        out.out.push(if i % 7 == 3 { ('S', 1, i) } else { ('A', (i * 91) % 300 - 150, (i * 57) % 400 - 200) });
    }
    let mut sim = Sim::new(&input);
    let mut collisions = 0;
    let mut gained = 0;
    for (turn, &(mv, x, y)) in out.out.iter().enumerate() {
        let before_visited = sim.visited.clone();
        let (score, p) = (sim.score, sim.p);
        let (hit, new, sensed) = sim.query(&input, mv, x, y);
        assert!(sim.score >= score);
        assert_eq!(sim.t, turn + 1);
        for (old, now) in before_visited.iter().zip(sim.visited.iter()) {
            assert!(!*old || *now);
        }
        if hit == 1 {
            collisions += 1;
            assert_eq!(sim.p, p);
            assert_eq!(sim.v, P(0, 0));
            assert!(new.is_empty());
            assert_eq!(sim.visited, before_visited);
        } else {
            assert_eq!(hit, 0);
            gained += new.len() as i64;
            for &i in &new {
                assert!(!before_visited[i] && sim.visited[i]);
            }
        }
        assert_eq!(sensed == Sensed::Skipped, mv == 'A');
        assert_eq!(sim.crt_score, 1000 * gained - 2 * (turn as i64 + 1) - 100 * collisions);
        let (r, _) = replay(&input, &out, turn + 1);
        assert_eq!(r.visited, sim.visited);
        assert_eq!((r.p, r.v, r.score, r.crt_score), (sim.p, sim.v, sim.score, sim.crt_score));
    }
    assert!(collisions > 0);
    assert!(gained > 0);
}
