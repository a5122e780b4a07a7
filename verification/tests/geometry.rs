use robot_sim::geometry::{integer_sqrt, Point, UNIT};

#[test]
fn point_new_keeps_coordinates() {
    let p = Point::new(1, -2, 3);
    assert_eq!(p, Point { x: 1, y: -2, z: 3 });
    assert_eq!(UNIT, 1000);
}

#[test]
fn distance_squared_of_a_pythagorean_triple() {
    let a = Point::new(0, 0, 0);
    let b = Point::new(3000, 4000, 0);
    assert_eq!(a.distance_squared(b), 25_000_000);
    assert_eq!(b.distance_squared(a), 25_000_000);
}

#[test]
fn distance_squared_counts_all_three_axes() {
    let a = Point::new(1, 2, 3);
    let b = Point::new(-1, 5, 9);
    assert_eq!(a.distance_squared(b), 4 + 9 + 36);
}

#[test]
fn distance_squared_to_itself_is_zero() {
    let p = Point::new(-4000, 500, 0);
    assert_eq!(p.distance_squared(p), 0);
}

#[test]
fn distance_squared_across_the_whole_range() {
    let a = Point::new(i32::MIN, i32::MIN, i32::MIN);
    let b = Point::new(i32::MAX, i32::MAX, i32::MAX);
    let side: u128 = 0xffff_ffff;
    assert_eq!(a.distance_squared(b), 3 * side * side);
}

#[test]
fn integer_sqrt_of_squares() {
    assert_eq!(integer_sqrt(0), 0);
    assert_eq!(integer_sqrt(1), 1);
    assert_eq!(integer_sqrt(4), 2);
    assert_eq!(integer_sqrt(25_000_000), 5000);
    assert_eq!(integer_sqrt(1 << 64), 1 << 32);
}

#[test]
fn integer_sqrt_rounds_down() {
    assert_eq!(integer_sqrt(2), 1);
    assert_eq!(integer_sqrt(3), 1);
    assert_eq!(integer_sqrt(8), 2);
    assert_eq!(integer_sqrt(24), 4);
    assert_eq!(integer_sqrt(999_999), 999);
    assert_eq!(integer_sqrt(1_000_000), 1000);
}

#[test]
fn integer_sqrt_of_the_largest_number() {
    assert_eq!(integer_sqrt(u128::MAX), u64::MAX);
    let r = u64::MAX as u128;
    assert_eq!(integer_sqrt(r * r), u64::MAX);
    assert_eq!(integer_sqrt(r * r - 1), u64::MAX - 1);
}
