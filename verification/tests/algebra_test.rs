use hex::point::{origin, unit, Point};

fn pt(hx: i32, hy: i32) -> Point {
    Point { hx, hy }
}

#[test]
fn third_axis_is_the_difference_of_the_other_two() {
    for hx in -4..5 {
        for hy in -4..5 {
            let p = pt(hx, hy);
            assert_eq!(p.hz(), hy - hx);
            assert_eq!(p.hx + p.hz(), p.hy);
        }
    }
    assert_eq!(pt(i32::MIN, -1).hz(), i32::MAX);
}

#[test]
fn addition_is_a_group_with_the_origin_as_identity() {
    let a = pt(4, -7);
    let b = pt(-9, 2);
    let c = pt(13, 5);
    assert_eq!((a + b) + c, a + (b + c));
    assert_eq!(a + b, b + a);
    assert_eq!(a + origin(), a);
    assert_eq!(a + a.invert(), origin());
    assert_eq!(a - b, a + b.invert());
    assert_eq!(a - b, pt(13, -9));
}

#[test]
fn scaling_multiplies_both_components() {
    let a = pt(4, -7);
    assert_eq!(a * 1, a);
    assert_eq!(a * 0, origin());
    assert_eq!(a * -1, a.invert());
    assert_eq!(a.invert(), pt(-4, 7));
    assert_eq!((a + pt(1, 1)) * 3, a * 3 + pt(1, 1) * 3);
    assert_eq!(pt(-3, 4) * -2, pt(6, -8));
}

#[test]
fn opposite_units_cancel() {
    for d in 0..3 {
        assert_eq!(unit(d) + unit(d + 3), origin());
        assert_eq!(unit(d + 3), unit(d).invert());
    }
}

#[test]
fn neighbor_counts_directions_modulo_six() {
    let p = pt(7, -2);
    for d in 0..6 {
        assert_eq!(p.neighbor(d), p + unit(d as usize));
        assert_eq!(p.neighbor(d + 6), p.neighbor(d));
        assert_eq!(p.neighbor(d - 6), p.neighbor(d));
        assert_eq!(p.neighbor(d - 600), p.neighbor(d));
        assert_eq!(p.distance(&p.neighbor(d)), 1);
    }
    assert_eq!(origin().neighbor(-1), unit(5));
    assert_eq!(origin().neighbor(-5), unit(1));
    assert_eq!(origin().neighbor(i32::MIN), unit(4));
    assert_eq!(origin().neighbor(i32::MAX), unit(1));
}

#[test]
fn reflect_picks_the_axis_modulo_three() {
    let p = pt(2, 7);
    assert_eq!(p.reflect(0), pt(2, 5));
    assert_eq!(p.reflect(1), pt(5, 7));
    assert_eq!(p.reflect(2), pt(7, 2));
    assert_eq!(p.reflect(3), pt(2, 5));
    assert_eq!(p.reflect(-1), pt(7, 2));
    assert_eq!(p.reflect(-2), pt(5, 7));
    assert_eq!(p.reflect(-3), pt(2, 5));
    assert_eq!(p.reflect_hx(), p.reflect(0));
    assert_eq!(p.reflect_hy(), p.reflect(1));
    assert_eq!(p.reflect_hz(), p.reflect(2));
}

#[test]
fn rotate_has_period_six() {
    let p = pt(3, -8);
    assert_eq!(p.rotate(0), p);
    assert_eq!(p.rotate(6), p);
    assert_eq!(p.rotate(-6), p);
    assert_eq!(p.rotate(3), p.invert());
    for h in -12..13 {
        assert_eq!(p.rotate(h + 6), p.rotate(h));
    }
    assert_eq!(p.rotate(1), pt(8, 11));
    assert_eq!(p.rotate(2), pt(-11, 3));
    assert_eq!(p.rotate(4), pt(-8, -11));
    assert_eq!(p.rotate(5), pt(11, -3));
    assert_eq!(p.rotate(-1), pt(11, -3));
}

#[test]
fn distance_is_symmetric_and_halves_the_sum_of_magnitudes() {
    let a = pt(-3, 3);
    let b = pt(3, 8);
    assert_eq!(a.distance(&b), 11);
    assert_eq!(b.distance(&a), 11);
    assert_eq!(origin().distance(&pt(1, 1)), 2);
    assert_eq!(origin().distance(&pt(1, -1)), 1);
    assert_eq!(origin().distance(&pt(-5, 2)), 5);
    assert_eq!(origin().distance(&pt(0, -9)), 9);
    assert_eq!(a.distance(&a), 0);
    for hx in -3..4 {
        for hy in -3..4 {
            let p = pt(hx, hy);
            let q = pt(hy - 1, 2 * hx);
            assert_eq!(p.distance(&q), q.distance(&p));
            let d = p - q;
            let largest = d.hx.abs().max(d.hy.abs()).max((d.hx + d.hy).abs());
            assert_eq!(p.distance(&q), largest);
        }
    }
}

#[test]
fn distance_of_far_points_fits() {
    assert_eq!(pt(i32::MIN, 0).distance(&pt(-1, 0)), i32::MAX);
    assert_eq!(pt(0, i32::MAX).distance(&pt(0, 0)), i32::MAX);
}

#[test]
fn line_to_itself_is_one_point() {
    assert_eq!(origin().line(&origin()), vec![origin()]);
    let p = pt(-12, 31);
    assert_eq!(p.line(&p), vec![p]);
    assert_eq!(p.interpolate(&p, 0), p);
    assert_eq!(p.interpolate(&p, 5), p);
}

#[test]
fn line_runs_from_end_to_end() {
    for hx in -3..4 {
        for hy in -3..4 {
            let p = pt(hx, hy);
            let q = pt(2 - hy, hx * 3);
            let l = p.line(&q);
            assert_eq!(l.len() as i32, p.distance(&q) + 1);
            assert_eq!(l[0], p);
            assert_eq!(l[l.len() - 1], q);
        }
    }
}

#[test]
fn line_rounds_each_step_to_the_nearest_point() {
    let a = pt(-3, 3);
    let b = pt(3, 8);
    let l = a.line(&b);
    assert_eq!(l.len() as i32, a.distance(&b) + 1);
    assert_eq!(
        l,
        vec![
            pt(-3, 3),
            pt(-2, 3),
            pt(-2, 4),
            pt(-1, 4),
            pt(-1, 5),
            pt(0, 5),
            pt(0, 6),
            pt(1, 6),
            pt(1, 7),
            pt(2, 7),
            pt(2, 8),
            pt(3, 8),
        ]
    );
}

#[test]
fn line_rounds_halves_away_from_zero() {
    assert_eq!(origin().line(&pt(1, 1)), vec![pt(0, 0), pt(1, 1), pt(1, 1)]);
    assert_eq!(origin().line(&pt(-1, -1)), vec![pt(0, 0), pt(-1, -1), pt(-1, -1)]);
    assert_eq!(pt(-3, 0).line(&pt(-2, 1)), vec![pt(-3, 0), pt(-3, 1), pt(-2, 1)]);
    assert_eq!(pt(2, -4).line(&pt(3, -3)), vec![pt(2, -4), pt(3, -4), pt(3, -3)]);
}

#[test]
fn interpolate_continues_past_the_ends() {
    let a = pt(0, 0);
    let b = pt(4, -2);
    assert_eq!(a.distance(&b), 4);
    assert_eq!(a.interpolate(&b, 0), a);
    assert_eq!(a.interpolate(&b, 1), pt(1, -1));
    assert_eq!(a.interpolate(&b, 2), pt(2, -1));
    assert_eq!(a.interpolate(&b, 3), pt(3, -2));
    assert_eq!(a.interpolate(&b, 4), b);
    assert_eq!(a.interpolate(&b, 8), pt(8, -4));
    assert_eq!(a.interpolate(&b, -4), pt(-4, 2));
    assert_eq!(a.interpolate(&b, -1), pt(-1, 1));
}

#[test]
fn line_between_far_points_keeps_its_ends() {
    let a = pt(i32::MIN, 5);
    let b = pt(i32::MIN + 3, 5);
    assert_eq!(a.line(&b), vec![a, pt(i32::MIN + 1, 5), pt(i32::MIN + 2, 5), b]);
    let c = pt(i32::MAX, i32::MIN);
    let d = pt(i32::MAX - 2, i32::MIN + 2);
    assert_eq!(c.line(&d), vec![c, pt(i32::MAX - 1, i32::MIN + 1), d]);
}
