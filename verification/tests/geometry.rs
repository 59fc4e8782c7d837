use agent_replay::geometry::{sig, wide_mul, Ratio, P};

#[test]
fn point_arithmetic() {
    assert_eq!(P(3, -4) + P(10, 20), P(13, 16));
    assert_eq!(P(3, -4) - P(10, 20), P(-7, -24));
    assert_eq!(P(3, -4) * 5, P(15, -20));
    assert_eq!(P::default(), P(0, 0));
}

#[test]
fn dot_det_abs2() {
    assert_eq!(P(3, 4).dot(P(-2, 5)), 14);
    assert_eq!(P(3, 4).det(P(-2, 5)), 23);
    assert_eq!(P(-2, 5).det(P(3, 4)), -23);
    assert_eq!(P(3, 4).abs2(), 25);
    assert_eq!(P(0, 0).abs2(), 0);
}

#[test]
fn dot_of_large_vectors() {
    let a = P(2_000_000_000, -2_000_000_000);
    assert_eq!(a.dot(a), 8_000_000_000_000_000_000);
    assert_eq!(a.det(P(2_000_000_000, 2_000_000_000)), 8_000_000_000_000_000_000);
}

#[test]
fn wide_product() {
    assert_eq!(wide_mul(i64::MIN, i64::MIN), 1i128 << 126);
    assert_eq!(wide_mul(i64::MAX, -1), -(i64::MAX as i128));
    assert_eq!(wide_mul(0, 12345), 0);
}

#[test]
fn sign_of_number() {
    assert_eq!(sig(17), 1);
    assert_eq!(sig(-3), -1);
    assert_eq!(sig(0), 0);
    assert_eq!(sig(i64::MIN), -1);
    assert_eq!(sig(i64::MAX), 1);
}

#[test]
fn ratio_at_most() {
    assert!(Ratio { num: 10, den: 5 }.at_most(2));
    assert!(!Ratio { num: 11, den: 5 }.at_most(2));
    assert!(Ratio { num: 0, den: 7 }.at_most(0));
}

#[test]
fn distance_to_segment_beyond_first_endpoint() {
    // The foot of the perpendicular falls before p1: distance to p1.
    let r = P::dist2_sp((P(0, 0), P(10, 0)), P(-3, 4));
    assert_eq!(r, Ratio { num: 25, den: 1 });
}

#[test]
fn distance_to_segment_beyond_second_endpoint() {
    // The foot falls after p2: distance to p2, not the perpendicular 16.
    let r = P::dist2_sp((P(0, 0), P(10, 0)), P(13, 4));
    assert_eq!(r, Ratio { num: 25, den: 1 });
}

#[test]
fn distance_to_segment_inside() {
    // The foot falls inside: the perpendicular distance, as det^2 / |p2 - p1|^2.
    let r = P::dist2_sp((P(0, 0), P(10, 0)), P(5, 4));
    assert_eq!(r, Ratio { num: 1600, den: 100 });
    let r = P::dist2_sp((P(0, 0), P(3, 4)), P(4, 3));
    assert_eq!(r, Ratio { num: 49, den: 25 });
}

#[test]
fn distance_to_segment_at_foot_on_endpoint() {
    let r = P::dist2_sp((P(0, 0), P(10, 0)), P(0, 7));
    assert_eq!(r, Ratio { num: 49, den: 1 });
    let r = P::dist2_sp((P(0, 0), P(10, 0)), P(10, 7));
    assert_eq!(r, Ratio { num: 49, den: 1 });
}

#[test]
fn distance_to_degenerate_segment() {
    let r = P::dist2_sp((P(2, 2), P(2, 2)), P(5, 6));
    assert_eq!(r, Ratio { num: 25, den: 1 });
}

#[test]
fn distance_to_line() {
    let r = P::dist2_lp((P(0, 0), P(10, 0)), P(13, 4));
    assert_eq!(r, Ratio { num: 1600, den: 100 });
    let r = P::dist2_lp((P(0, 0), P(1, 1)), P(1, 0));
    assert_eq!(r, Ratio { num: 1, den: 2 });
    let r = P::dist2_lp((P(0, 0), P(1, 1)), P(7, 7));
    assert_eq!(r, Ratio { num: 0, den: 2 });
}

#[test]
fn distance_at_the_coordinate_limit() {
    let m = 1_000_000_000;
    let r = P::dist2_lp((P(-m, -m), P(m, -m)), P(-m, m));
    assert_eq!(
        r,
        Ratio { num: 16_000_000_000_000_000_000_000_000_000_000_000_000, den: 4_000_000_000_000_000_000 }
    );
    let r = P::dist2_sp((P(-m, -m), P(m, -m)), P(0, m));
    assert_eq!(r.num / r.den, 4_000_000_000_000_000_000);
}

#[test]
fn point_on_line_and_segment() {
    let s = (P(0, 0), P(4, 2));
    assert!(P::crs_lp(s, P(2, 1)));
    assert!(P::crs_lp(s, P(6, 3)));
    assert!(P::crs_lp(s, P(-2, -1)));
    assert!(!P::crs_lp(s, P(2, 2)));
    assert!(P::crs_sp(s, P(2, 1)));
    assert!(P::crs_sp(s, P(0, 0)));
    assert!(P::crs_sp(s, P(4, 2)));
    assert!(!P::crs_sp(s, P(6, 3)));
    assert!(!P::crs_sp(s, P(-2, -1)));
    assert!(!P::crs_sp(s, P(2, 2)));
}

#[test]
fn segments_with_disjoint_boxes_do_not_cross() {
    assert!(!P::crs_ss((P(0, 0), P(1, 1)), (P(2, 2), P(3, 3))));
    assert!(!P::crs_ss((P(0, 0), P(10, 0)), (P(11, -5), P(11, 5))));
    assert!(!P::crs_ss((P(0, 0), P(0, 10)), (P(-5, 11), P(5, 11))));
    assert!(!P::crs_ss((P(5, 5), P(6, 6)), (P(0, 0), P(1, 1))));
}

#[test]
fn segments_that_cross() {
    assert!(P::crs_ss((P(0, 0), P(10, 10)), (P(0, 10), P(10, 0))));
    assert!(P::crs_ss((P(-5, 0), P(5, 0)), (P(0, -5), P(0, 5))));
}

#[test]
fn segments_that_touch() {
    // An endpoint on the other segment.
    assert!(P::crs_ss((P(0, 0), P(10, 0)), (P(5, 0), P(5, 5))));
    // A common endpoint.
    assert!(P::crs_ss((P(0, 0), P(10, 0)), (P(10, 0), P(20, 7))));
    // Collinear and overlapping.
    assert!(P::crs_ss((P(0, 0), P(10, 0)), (P(5, 0), P(15, 0))));
}

#[test]
fn segments_with_meeting_boxes_that_do_not_cross() {
    assert!(!P::crs_ss((P(0, 0), P(10, 10)), (P(6, 0), P(10, 4))));
    assert!(!P::crs_ss((P(0, 0), P(10, 0)), (P(5, 1), P(5, 5))));
    // A point beside a segment.
    assert!(!P::crs_ss((P(0, 0), P(10, 10)), (P(5, 4), P(5, 4))));
}

#[test]
fn lines_meet() {
    let r = P::pi_ll((P(0, 0), P(10, 10)), (P(0, 10), P(10, 0)));
    let (x, y) = r.unwrap();
    assert!(x.den > 0);
    assert_eq!(x.den, y.den);
    assert_eq!(x.num, 5 * x.den);
    assert_eq!(y.num, 5 * y.den);
}

#[test]
fn lines_meet_at_a_fraction() {
    // y = x and y = 1 - 2x meet at (1/3, 1/3).
    let r = P::pi_ll((P(0, 0), P(1, 1)), (P(0, 1), P(1, -1)));
    let (x, y) = r.unwrap();
    assert_eq!((x.num, x.den), (1, 3));
    assert_eq!((y.num, y.den), (1, 3));
}

#[test]
fn lines_meet_outside_both_segments() {
    let r = P::pi_ll((P(0, 0), P(1, 0)), (P(5, 1), P(5, 2)));
    let (x, y) = r.unwrap();
    assert_eq!((x.num, x.den), (5, 1));
    assert_eq!((y.num, y.den), (0, 1));
}

#[test]
fn parallel_lines_do_not_meet() {
    assert_eq!(P::pi_ll((P(0, 0), P(1, 1)), (P(0, 1), P(5, 6))), None);
    assert_eq!(P::pi_ll((P(0, 0), P(1, 1)), (P(2, 2), P(3, 3))), None);
    assert_eq!(P::pi_ll((P(0, 0), P(0, 0)), (P(2, 2), P(3, 3))), None);
}

fn grid() -> Vec<P> {
    let mut g = vec![];
    for x in -2..=2 {
        for y in -2..=2 {
            g.push(P(x, y));
        }
    }
    g
}

#[test]
fn no_point_of_a_segment_is_nearer_than_the_distance() {
    for &p1 in &grid() {
        for &p2 in &grid() {
            for &q in &grid() {
                let r = P::dist2_sp((p1, p2), q);
                assert!(r.den > 0 && r.num >= 0);
                let mut attained = false;
                for n in 1..=8i64 {
                    for m in 0..=n {
                        // n times the vector from the point p1 + (m / n) (p2 - p1) to q
                        let z = (q - p1) * n - (p2 - p1) * m;
                        let lhs = r.num * (n * n) as i128;
                        let rhs = z.abs2() as i128 * r.den;
                        assert!(lhs <= rhs, "{:?} {:?} {:?} {}/{}", p1, p2, q, m, n);
                        attained |= lhs == rhs;
                    }
                }
                // On this grid the nearest point has a denominator of at most 8.
                let len2 = (p2 - p1).abs2();
                if len2 <= 8 {
                    assert!(attained, "{:?} {:?} {:?}", p1, p2, q);
                }
            }
        }
    }
}

#[test]
fn crossing_test_agrees_with_common_points() {
    // A common point of two segments on this grid has a denominator that
    // divides the cross product of their directions, or is an endpoint.
    for &p1 in &grid() {
        for &p2 in &grid() {
            for &q1 in &grid() {
                for &q2 in &grid() {
                    let u = p2 - p1;
                    let w = q2 - q1;
                    let c = q1 - p1;
                    let d = u.det(w);
                    let shares = if d != 0 {
                        // p1 + (a / d) u == q1 + (b / d) w
                        let a = c.det(w);
                        let b = c.det(u);
                        let (a, b, n) = if d < 0 { (-a, -b, -d) } else { (a, b, d) };
                        0 <= a && a <= n && 0 <= b && b <= n
                    } else {
                        P::crs_sp((p1, p2), q1)
                            || P::crs_sp((p1, p2), q2)
                            || P::crs_sp((q1, q2), p1)
                            || P::crs_sp((q1, q2), p2)
                    };
                    assert_eq!(
                        P::crs_ss((p1, p2), (q1, q2)),
                        shares,
                        "{:?} {:?} {:?} {:?}",
                        p1,
                        p2,
                        q1,
                        q2
                    );
                    assert_eq!(P::crs_ss((p1, p2), (q1, q2)), P::crs_ss((q1, q2), (p1, p2)));
                }
            }
        }
    }
}

#[test]
fn point_on_segment_is_at_distance_zero() {
    for &p1 in &grid() {
        for &p2 in &grid() {
            for &q in &grid() {
                assert_eq!(P::crs_sp((p1, p2), q), P::dist2_sp((p1, p2), q).num == 0);
                assert_eq!(P::crs_sp((p1, p2), q), P::crs_ss((p1, p2), (q, q)));
                if p1 != p2 {
                    assert_eq!(P::crs_lp((p1, p2), q), P::dist2_lp((p1, p2), q).num == 0);
                }
            }
        }
    }
}

#[test]
fn meeting_point_lies_on_both_lines() {
    for &p1 in &grid() {
        for &p2 in &grid() {
            for &q1 in &grid() {
                for &q2 in &grid() {
                    let u = p2 - p1;
                    let w = q2 - q1;
                    match P::pi_ll((p1, p2), (q1, q2)) {
                        None => assert_eq!(u.det(w), 0),
                        Some((x, y)) => {
                            assert_ne!(u.det(w), 0);
                            assert!(x.den > 0 && x.den == y.den);
                            let n = x.den as i64;
                            let m = P(x.num as i64, y.num as i64);
                            assert_eq!(u.det(m - p1 * n), 0);
                            assert_eq!(w.det(m - q1 * n), 0);
                        }
                    }
                }
            }
        }
    }
}
