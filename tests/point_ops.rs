use packstep::point::{distance_squared, genvelocity, Point};

#[test]
fn new_point_is_zero() {
    assert_eq!(Point::new(), Point(0, 0, 0));
}

#[test]
fn sum_adds_components() {
    assert_eq!(Point(1, -2, 7).sum(), 6);
}

#[test]
fn elementwise_arithmetic() {
    let a = Point(3, -4, 5);
    let b = Point(2, 6, -1);
    assert_eq!(a.add(b), Point(5, 2, 4));
    assert_eq!(a.sub(b), Point(1, -10, 6));
    assert_eq!(a.mul(b), Point(6, -24, -5));
}

#[test]
fn squared_distance_is_exact() {
    assert_eq!(distance_squared(&Point(1, 2, 3), &Point(4, 6, 3)), 25);
    assert_eq!(distance_squared(&Point(4, 6, 3), &Point(1, 2, 3)), 25);
    assert_eq!(distance_squared(&Point(7, 7, 7), &Point(7, 7, 7)), 0);
}

#[test]
fn initial_velocity_is_shear_flow() {
    let p = vec![Point(1, 2, 3), Point(-4, 0, 10), Point(0, 0, 0)];
    let u = genvelocity(&p);
    assert_eq!(u, vec![Point(50, 0, -150), Point(-200, 0, -500), Point(0, 0, 0)]);
}

#[test]
fn initial_velocity_of_no_points() {
    assert!(genvelocity(&Vec::new()).is_empty());
}
