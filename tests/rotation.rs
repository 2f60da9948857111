use beacon_scanner::point::Point;
use beacon_scanner::rotation::{get_rotated_points, rotate_point, ROTATION_COUNT};

fn abs_sorted(p: &Point) -> Vec<i64> {
    let mut v = vec![p.x.abs(), p.y.abs(), p.z.abs()];
    v.sort();
    v
}

#[test]
fn rotation_zero_is_identity() {
    let p = Point::new(4, -5, 6);
    assert_eq!(rotate_point(0, &p), p);
}

#[test]
fn rotations_send_an_asymmetric_point_to_distinct_points() {
    let p = Point::new(1, 2, 3);
    let mut seen: Vec<Point> = Vec::new();
    for k in 0..ROTATION_COUNT {
        let r = rotate_point(k, &p);
        assert!(!seen.contains(&r));
        seen.push(r);
    }
    assert_eq!(seen.len(), 24);
}

#[test]
fn rotations_keep_absolute_coordinates() {
    let p = Point::new(-7, 11, 3);
    for k in 0..ROTATION_COUNT {
        assert_eq!(abs_sorted(&rotate_point(k, &p)), abs_sorted(&p));
    }
}

#[test]
fn rotations_compose_within_the_table() {
    let p = Point::new(1, 2, 3);
    for i in 0..ROTATION_COUNT {
        for j in 0..ROTATION_COUNT {
            let twice = rotate_point(j, &rotate_point(i, &p));
            assert!((0..ROTATION_COUNT).any(|k| rotate_point(k, &p) == twice));
        }
    }
}

#[test]
fn known_rotations() {
    let p = Point::new(1, 2, 3);
    assert_eq!(rotate_point(1, &p), Point::new(-2, 1, 3));
    assert_eq!(rotate_point(4, &p), Point::new(-3, 2, 1));
    assert_eq!(rotate_point(6, &p), Point::new(1, -3, 2));
    assert_eq!(rotate_point(23, &p), Point::new(-2, 3, -1));
}

#[test]
fn quarter_turns() {
    let p = Point::new(1, 2, 3);
    assert_eq!(p.rot_along_x(), Point::new(1, -3, 2));
    assert_eq!(p.rot_along_y(), Point::new(-3, 2, 1));
    assert_eq!(p.rot_along_z(), Point::new(-2, 1, 3));
}

#[test]
fn point_arithmetic() {
    let a = Point::new(1, -2, 3);
    let b = Point::new(10, 20, -30);
    assert_eq!(a.add(&b), Point::new(11, 18, -27));
    assert_eq!(a.sub(&b), Point::new(-9, -22, 33));
    assert_eq!(a.neg(), Point::new(-1, 2, -3));
}

#[test]
fn rotated_points_keep_order_and_length() {
    let pts = vec![Point::new(1, 2, 3), Point::new(-1, 0, 5)];
    let r = get_rotated_points(1, &pts);
    assert_eq!(r, vec![Point::new(-2, 1, 3), Point::new(0, -1, 5)]);
    assert!(get_rotated_points(7, &Vec::new()).is_empty());
}
