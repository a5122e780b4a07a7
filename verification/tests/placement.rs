use robot_sim::geometry::Point;
use robot_sim::placement::{
    pseudo_random, robot_start_position, task_position, FIELD_WIDTH, MAX_ROBOTS, PERIOD,
    PLACEMENT_SCALE, ROBOT_HEIGHT, TASK_HEIGHT,
};

#[test]
fn pseudo_random_known_values() {
    assert_eq!(pseudo_random(0), 0);
    assert_eq!(pseudo_random(1), 680_076);
    assert_eq!(pseudo_random(10), 734_383);
    assert_eq!(pseudo_random(42), 879_471);
}

#[test]
fn pseudo_random_stays_in_range() {
    for seed in 0..5000u64 {
        assert!(pseudo_random(seed) < PLACEMENT_SCALE);
    }
    assert!(pseudo_random(u64::MAX) < PLACEMENT_SCALE);
}

#[test]
fn pseudo_random_is_repeatable_and_periodic() {
    for seed in 0..200u64 {
        assert_eq!(pseudo_random(seed), pseudo_random(seed));
        assert_eq!(pseudo_random(seed), pseudo_random(seed + PERIOD));
    }
}

#[test]
fn pseudo_random_scatters_neighbouring_seeds() {
    let mut seen = Vec::new();
    for seed in 10..22u64 {
        let r = pseudo_random(seed);
        assert!(!seen.contains(&r));
        seen.push(r);
    }
}

#[test]
fn robots_start_on_a_line() {
    assert_eq!(robot_start_position(0), Point::new(-4000, 500, 0));
    assert_eq!(robot_start_position(1), Point::new(-2000, 500, 0));
    assert_eq!(robot_start_position(2), Point::new(0, 500, 0));
    assert_eq!(robot_start_position(4), Point::new(4000, 500, 0));
    assert_eq!(robot_start_position(0).y, ROBOT_HEIGHT);
}

#[test]
fn last_robot_start_fits_the_coordinates() {
    let p = robot_start_position(MAX_ROBOTS - 1);
    assert_eq!(p, Point::new(1_999_994_000, 500, 0));
}

#[test]
fn task_positions_known_values() {
    assert_eq!(task_position(0), Point::new(3281, 250, 5312));
    assert_eq!(task_position(1), Point::new(-2258, 250, -6318));
    assert_eq!(task_position(9), Point::new(-4316, 250, -3355));
    assert_eq!(task_position(11), Point::new(-201, 250, -5600));
}

#[test]
fn task_positions_lie_in_the_field() {
    let half = (FIELD_WIDTH / 2) as i32;
    for id in 0..2000usize {
        let p = task_position(id);
        assert!(-half <= p.x && p.x < half);
        assert!(-half <= p.z && p.z < half);
        assert_eq!(p.y, TASK_HEIGHT);
    }
    let far = task_position(usize::MAX);
    assert!(-half <= far.x && far.x < half);
    assert!(-half <= far.z && far.z < half);
}

#[test]
fn task_positions_are_a_function_of_the_id() {
    for id in 0..50usize {
        assert_eq!(task_position(id), task_position(id));
    }
}
