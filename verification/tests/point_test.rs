use hex::point::{origin, unit, Point};

#[test]
fn point_test_test_partial_eq() {
    let h1 = Point { hx: 3, hy: -4 };
    let h2 = Point { hx: 3, hy: -4 };
    let h3 = Point { hx: -2, hy: 12 };
    assert_eq!(h1, h2);
    assert_eq!(h1, Point { hx: 3, hy: -4 });
    assert_eq!(h3, Point { hx: -2, hy: 12 });
    assert_ne!(h1, h3);
}

#[test]
fn point_test_test_origin() {
    // all three dimensions should be zero
    assert_eq!(origin().hx, 0);
    assert_eq!(origin().hy, 0);
    assert_eq!(origin().hz(), 0);
    assert_eq!(origin(), Point { hx: 0, hy: 0 });
    assert_eq!(Point { hx: 0, hy: 0 }, origin());
}

#[test]
fn point_test_test_unit() {
    // Each of the 6 unit vectors is a move of one hex in one of the six
    // directions.
    assert_eq!(&unit(0), &Point { hx: 0, hy: -1 });
    assert_eq!(&unit(3), &Point { hx: 0, hy: 1 });

    assert_eq!(&unit(1), &Point { hx: 1, hy: -1 });
    assert_eq!(&unit(4), &Point { hx: -1, hy: 1 });

    assert_eq!(&unit(2), &Point { hx: 1, hy: 0 });
    assert_eq!(&unit(5), &Point { hx: -1, hy: 0 });
}

#[test]
fn point_test_test_hz() {
    // the third axis depends on the other two
    assert_eq!(0, Point { hx: 0, hy: 0 }.hz());
    assert_eq!(1, Point { hx: 0, hy: 1 }.hz());
    assert_eq!(4, Point { hx: -2, hy: 2 }.hz());
    assert_eq!(-8, Point { hx: 9, hy: 1 }.hz());
}

#[test]
fn test_neighbor() {
    for i in 0..6 {
        assert_eq!(origin().neighbor(i), unit(i as usize))
    }
}

#[test]
fn test_rotate() {
    let first = Point { hx: 1, hy: -4 };

    assert_eq!(first, first.rotate(0));
    assert_eq!(first, first.rotate(6));
    assert_eq!(first, first.rotate(-6));

    assert_eq!(Point { hx: first.hy * -1, hy: first.hz() * -1 }, first.rotate(1));
    assert_eq!(Point { hx: first.hy * -1, hy: first.hz() * -1 }, first.rotate(7));
    assert_eq!(Point { hx: first.hz() * -1, hy: first.hx * -1 }, first.rotate(-1));
    assert_eq!(Point { hx: first.hz() * -1, hy: first.hx * -1 }, first.rotate(-7));

    assert_eq!(Point { hx: first.hz(), hy: first.hx }, first.rotate(2));
    assert_eq!(Point { hx: first.hx * -1, hy: first.hy * -1 }, first.rotate(3));
    assert_eq!(first.invert(), first.rotate(3));
    assert_eq!(first.invert(), first.rotate(-3));

    assert_eq!(Point { hx: first.hz() * -1, hy: first.hx * -1 }, first.rotate(5));
}

#[test]
fn point_test_test_add() {
    // hex arithmetic matches cartesian arithmetic: add the components
    assert_eq!(Point { hx: 4, hy: 7 } + Point { hx: -4, hy: -7 }, origin());
    assert_eq!(Point { hx: -3, hy: 4 } + Point { hx: 3, hy: -4 }, origin());
}

#[test]
fn point_test_test_sub() {
    assert_eq!(Point { hx: 4, hy: 7 } - Point { hx: 4, hy: 7 }, origin());
    assert_eq!(Point { hx: -3, hy: 4 } - Point { hx: -3, hy: 4 }, origin());
}

#[test]
fn point_test_test_mul() {
    assert_eq!(Point { hx: 4, hy: 7 } * 3, Point { hx: 12, hy: 21 });
    assert_eq!(Point { hx: -3, hy: 4 } * -2, Point { hx: 6, hy: -8 });
}

#[test]
fn point_test_test_distance() {
    assert_eq!(origin().distance(&unit(0)), 1);
    assert_eq!(origin().distance(&unit(1)), 1);
    assert_eq!(origin().distance(&unit(2)), 1);
    assert_eq!(origin().distance(&unit(3)), 1);
    assert_eq!(origin().distance(&unit(4)), 1);
    assert_eq!(origin().distance(&unit(5)), 1);
}

#[test]
fn test_line() {
    // from the origin to each unit
    for h in 0..5 {
        let expect: Vec<Point> = vec![origin(), unit(h)];
        let actual = origin().line(&unit(h));
        assert_eq!(expect, actual);
    }

    // through the origin along the axes of the unit vectors
    for h in 0..5 {
        let expect: Vec<Point> = vec![unit(h), origin(), unit((h + 3) % 6)];
        let actual = unit(h).line(&unit((h + 3) % 6));
        assert_eq!(expect, actual);
    }

    // longer lines through the origin
    for h in 0..5 {
        let expect: Vec<Point> = (0..11).map(|i| unit(h) * 5 + unit((h + 3) % 6) * i).collect();
        let actual = (unit(h) * 5).line(&(unit((h + 3) % 6) * 5));
        assert_eq!(expect, actual);
    }
}

#[test]
fn test_region() {
    let r0 = origin().region(0);
    assert_eq!(1, r0.len());

    let r1 = origin().region(1);
    assert_eq!(7, r1.len());

    let r2 = origin().region(2);
    assert_eq!(19, r2.len());

    let r3 = origin().region(3);
    assert_eq!(37, r3.len());

    let r4 = unit(0).region(2);
    assert_eq!(19, r4.len());

    let r5 = Point { hx: 14, hy: -3 }.region(2);
    assert_eq!(19, r5.len());
}

#[test]
fn test_ring() {
    // a single hex
    assert_eq!(origin().ring(0), vec![origin()]);
    assert_eq!(Point { hx: -3, hy: 4 }.ring(0), vec![Point { hx: -3, hy: 4 }]);

    assert_eq!(origin().ring(1), vec![unit(4), unit(5), unit(0), unit(1), unit(2), unit(3)]);
}

#[test]
fn test_spiral() {
    assert_eq!(origin().spiral(0), vec![origin()]);
    assert_eq!(Point { hx: -3, hy: 4 }.spiral(0), vec![Point { hx: -3, hy: 4 }]);

    assert_eq!(origin().spiral(1).len(), 7);
    assert_eq!(origin().spiral(2).len(), 19);

    let mut spiral = origin().spiral(0);
    spiral.extend(origin().ring(1));
    assert_eq!(origin().spiral(1), spiral);
    spiral.extend(origin().ring(2));
    assert_eq!(origin().spiral(2), spiral);
}
