use robot_sim::event::Event;
use robot_sim::geometry::Point;
use robot_sim::model::{Robot, Task, NUM_ROBOTS, NUM_TASKS};
use robot_sim::placement::{robot_start_position, task_position};
use robot_sim::rules::{CLOCK_LIMIT, MAX_TRAVEL_TIME, MIN_TRAVEL_TIME, SPEED};
use robot_sim::simulation::{
    allocate_tasks, compute_travel_time, draw_robot_paths, nearest_task, run_simulation,
    setup_world, Simulation,
};

fn world(robots: usize, tasks: usize) -> Simulation {
    let mut sim = Simulation::new();
    setup_world(&mut sim, robots, tasks);
    sim
}

fn free_task(id: usize, x: i32, z: i32) -> Task {
    Task { id, position: Point::new(x, 250, z), assigned_to: None, completed: false }
}

fn assert_fresh(sim: &Simulation, robots: usize, tasks: usize) {
    assert_eq!(sim.now(), 0);
    assert_eq!(sim.pending(), 0);
    assert_eq!(sim.robots().len(), robots);
    assert_eq!(sim.tasks().len(), tasks);
    for (i, robot) in sim.robots().iter().enumerate() {
        assert_eq!(robot.id, i);
        assert_eq!(robot.position, robot_start_position(i));
        assert_eq!(robot.assignment.task_id, None);
        assert_eq!(robot.path.points, vec![robot_start_position(i)]);
    }
    for (j, task) in sim.tasks().iter().enumerate() {
        assert_eq!(task.id, j);
        assert_eq!(task.position, task_position(j));
        assert_eq!(task.assigned_to, None);
        assert!(!task.completed);
    }
}

fn assert_assignments_agree(sim: &Simulation) {
    let robots: &Vec<Robot> = sim.robots();
    let tasks: &Vec<Task> = sim.tasks();
    for (j, a) in tasks.iter().enumerate() {
        for (k, b) in tasks.iter().enumerate() {
            if j != k && a.assigned_to.is_some() {
                assert_ne!(a.assigned_to, b.assigned_to);
            }
        }
        if let Some(r) = a.assigned_to {
            assert_eq!(robots[r].assignment.task_id, Some(j));
            assert!(!a.completed);
        }
    }
    for robot in robots.iter() {
        if let Some(t) = robot.assignment.task_id {
            assert_eq!(tasks[t].assigned_to, Some(robot.id));
        }
    }
    let busy = robots.iter().filter(|r| r.assignment.task_id.is_some()).count();
    assert_eq!(sim.pending(), busy);
}

#[test]
fn default_counts() {
    assert_eq!(NUM_ROBOTS, 5);
    assert_eq!(NUM_TASKS, 12);
}

#[test]
fn constants_of_travel() {
    assert_eq!(SPEED, 4);
    assert_eq!(MIN_TRAVEL_TIME, 500);
    assert_eq!(CLOCK_LIMIT, u64::MAX - MAX_TRAVEL_TIME);
}

#[test]
fn new_simulation_is_empty() {
    let sim = Simulation::new();
    assert_fresh(&sim, 0, 0);
}

#[test]
fn setup_world_builds_fresh_robots_and_tasks() {
    let sim = world(NUM_ROBOTS, NUM_TASKS);
    assert_fresh(&sim, 5, 12);
    assert_eq!(sim.robots()[0].position, Point::new(-4000, 500, 0));
    assert_eq!(sim.tasks()[0].position, Point::new(3281, 250, 5312));
}

#[test]
fn setup_world_replaces_the_registry_and_keeps_clock_and_queue() {
    let mut sim = world(2, 3);
    sim.schedule(Event::move_robot(900, 7, Point::new(1, 2, 3), None));
    run_simulation(&mut sim, 10);
    setup_world(&mut sim, 4, 1);
    assert_eq!(sim.now(), 10);
    assert_eq!(sim.pending(), 1);
    assert_eq!(sim.robots().len(), 4);
    assert_eq!(sim.tasks().len(), 1);
    assert_eq!(sim.robots()[3].path.points, vec![Point::new(2000, 500, 0)]);
}

#[test]
fn travel_time_is_distance_over_speed() {
    assert_eq!(compute_travel_time(25_000_000), 1250);
    assert_eq!(compute_travel_time(64_000_000), 2000);
    assert_eq!(compute_travel_time(4_000_000), 500);
    assert_eq!(compute_travel_time(4_004_001), 500);
    assert_eq!(compute_travel_time(4_016_016), 501);
}

#[test]
fn travel_time_has_a_floor() {
    assert_eq!(compute_travel_time(0), 500);
    assert_eq!(compute_travel_time(1), 500);
    assert_eq!(compute_travel_time(62_500), 500);
    assert_eq!(compute_travel_time(3_999_999), 500);
}

#[test]
fn travel_time_between_the_farthest_points() {
    let a = Point::new(i32::MIN, i32::MIN, i32::MIN);
    let b = Point::new(i32::MAX, i32::MAX, i32::MAX);
    let t = compute_travel_time(a.distance_squared(b));
    assert_eq!(t, 1_859_775_392);
    assert!(t < MAX_TRAVEL_TIME);
}

#[test]
fn nearest_task_picks_the_smallest_distance() {
    let tasks = vec![free_task(0, 5000, 0), free_task(1, 1000, 0), free_task(2, -3000, 0)];
    assert_eq!(nearest_task(&tasks, Point::new(0, 500, 0)), Some(1));
    assert_eq!(nearest_task(&tasks, Point::new(-2500, 500, 0)), Some(2));
    assert_eq!(nearest_task(&tasks, Point::new(9000, 500, 0)), Some(0));
}

#[test]
fn nearest_task_skips_taken_and_completed_tasks() {
    let mut tasks = vec![free_task(0, 100, 0), free_task(1, 200, 0), free_task(2, 300, 0)];
    tasks[0].completed = true;
    tasks[1].assigned_to = Some(4);
    assert_eq!(nearest_task(&tasks, Point::new(0, 500, 0)), Some(2));
    tasks[2].completed = true;
    assert_eq!(nearest_task(&tasks, Point::new(0, 500, 0)), None);
}

#[test]
fn nearest_task_of_none_is_none() {
    let tasks: Vec<Task> = Vec::new();
    assert_eq!(nearest_task(&tasks, Point::new(0, 0, 0)), None);
}

#[test]
fn nearest_task_takes_the_first_of_equally_near_tasks() {
    let tasks = vec![free_task(0, 9000, 0), free_task(1, 1000, 0), free_task(2, -1000, 0)];
    assert_eq!(nearest_task(&tasks, Point::new(0, 500, 0)), Some(1));
    let tasks = vec![free_task(0, -1000, 0), free_task(1, 1000, 0), free_task(2, 0, 1000)];
    assert_eq!(nearest_task(&tasks, Point::new(0, 500, 0)), Some(0));
}

#[test]
fn eligibility_and_idleness() {
    let mut task = free_task(0, 0, 0);
    assert!(task.is_eligible());
    task.assigned_to = Some(1);
    assert!(!task.is_eligible());
    task.assigned_to = None;
    task.completed = true;
    assert!(!task.is_eligible());
    let mut sim = world(1, 1);
    assert!(sim.robots()[0].is_idle());
    sim.advance(1);
    assert!(!sim.robots()[0].is_idle());
}

#[test]
fn schedule_adds_one_pending_event() {
    let mut sim = world(1, 0);
    sim.schedule(Event::move_robot(10, 0, Point::new(0, 500, 0), None));
    assert_eq!(sim.pending(), 1);
    sim.schedule(Event::move_robot(10, 0, Point::new(0, 500, 0), None));
    assert_eq!(sim.pending(), 2);
    assert_eq!(sim.now(), 0);
    assert_eq!(sim.robots()[0].path.points.len(), 1);
}

#[test]
fn scheduled_events_run_in_timestamp_order() {
    let mut sim = world(1, 0);
    for t in [5u64, 1, 3] {
        sim.schedule(Event::move_robot(t, 0, Point::new(t as i32, 500, 0), None));
    }
    run_simulation(&mut sim, 10);
    assert_eq!(sim.now(), 10);
    assert_eq!(sim.pending(), 0);
    assert_eq!(
        sim.robots()[0].path.points,
        vec![
            Point::new(-4000, 500, 0),
            Point::new(1, 500, 0),
            Point::new(3, 500, 0),
            Point::new(5, 500, 0),
        ]
    );
    assert_eq!(sim.robots()[0].position, Point::new(5, 500, 0));
}

#[test]
fn events_in_the_future_wait() {
    let mut sim = world(1, 0);
    sim.schedule(Event::move_robot(100, 0, Point::new(7, 500, 7), None));
    run_simulation(&mut sim, 99);
    assert_eq!(sim.pending(), 1);
    assert_eq!(sim.robots()[0].position, Point::new(-4000, 500, 0));
    run_simulation(&mut sim, 1);
    assert_eq!(sim.pending(), 0);
    assert_eq!(sim.robots()[0].position, Point::new(7, 500, 7));
}

#[test]
fn run_simulation_with_nothing_pending_only_moves_the_clock() {
    let mut sim = world(2, 2);
    run_simulation(&mut sim, 250);
    assert_eq!(sim.now(), 250);
    run_simulation(&mut sim, 0);
    assert_eq!(sim.now(), 250);
    assert_eq!(sim.pending(), 0);
    assert_eq!(sim.robots()[1].assignment.task_id, None);
}

#[test]
fn arrival_records_the_place_left_only_when_it_is_new() {
    let mut sim = world(1, 0);
    let start = Point::new(-4000, 500, 0);
    let a = Point::new(10, 500, 10);
    sim.schedule(Event::move_robot(1, 0, a, None));
    run_simulation(&mut sim, 1);
    assert_eq!(sim.robots()[0].path.points, vec![start, a]);
    sim.schedule(Event::move_robot(2, 0, a, None));
    run_simulation(&mut sim, 1);
    assert_eq!(sim.robots()[0].path.points, vec![start, a, a]);
}

#[test]
fn arrival_clears_the_assignment_even_without_a_task() {
    let mut sim = world(1, 1);
    sim.advance(0);
    assert_eq!(sim.robots()[0].assignment.task_id, Some(0));
    sim.schedule(Event::move_robot(1, 0, Point::new(0, 500, 0), None));
    run_simulation(&mut sim, 1);
    assert_eq!(sim.robots()[0].assignment.task_id, None);
    assert!(!sim.tasks()[0].completed);
    assert_eq!(sim.tasks()[0].assigned_to, Some(0));
}

#[test]
fn event_for_an_unknown_robot_is_dropped() {
    let mut sim = world(2, 2);
    sim.schedule(Event::move_robot(1, 9, Point::new(5, 5, 5), Some(1)));
    run_simulation(&mut sim, 5);
    assert_eq!(sim.pending(), 0);
    assert_eq!(sim.now(), 5);
    let mut fresh = world(2, 2);
    run_simulation(&mut fresh, 5);
    assert_eq!(sim.robots(), fresh.robots());
    assert_eq!(sim.tasks(), fresh.tasks());
    assert!(!sim.tasks()[1].completed);
}

#[test]
fn event_for_an_unknown_task_still_moves_the_robot() {
    let mut sim = world(1, 1);
    sim.schedule(Event::move_robot(1, 0, Point::new(5, 500, 5), Some(40)));
    run_simulation(&mut sim, 5);
    assert_eq!(sim.robots()[0].position, Point::new(5, 500, 5));
    assert_eq!(sim.robots()[0].path.points.len(), 2);
    assert!(!sim.tasks()[0].completed);
}

#[test]
fn processing_goes_on_after_a_dropped_event() {
    let mut sim = world(1, 0);
    sim.schedule(Event::move_robot(1, 3, Point::new(1, 1, 1), None));
    sim.schedule(Event::move_robot(2, 0, Point::new(2, 500, 2), None));
    run_simulation(&mut sim, 2);
    assert_eq!(sim.pending(), 0);
    assert_eq!(sim.robots()[0].position, Point::new(2, 500, 2));
}

#[test]
fn events_with_equal_timestamps_run_in_payload_order() {
    let mut forwards = world(3, 0);
    let mut backwards = world(3, 0);
    let events = [
        Event::move_robot(4, 2, Point::new(1, 500, 1), None),
        Event::move_robot(4, 0, Point::new(9, 500, 9), None),
        Event::move_robot(4, 0, Point::new(3, 500, 3), None),
        Event::move_robot(4, 1, Point::new(5, 500, 5), Some(0)),
    ];
    for e in events.iter() {
        forwards.schedule(*e);
    }
    for e in events.iter().rev() {
        backwards.schedule(*e);
    }
    run_simulation(&mut forwards, 4);
    run_simulation(&mut backwards, 4);
    assert_eq!(forwards.robots(), backwards.robots());
    assert_eq!(forwards.robots()[0].position, Point::new(9, 500, 9));
    assert_eq!(
        forwards.robots()[0].path.points,
        vec![Point::new(-4000, 500, 0), Point::new(3, 500, 3), Point::new(9, 500, 9)]
    );
}

#[test]
fn allocation_gives_each_idle_robot_the_nearest_free_task() {
    let mut sim = world(5, 12);
    allocate_tasks(&mut sim);
    let taken: Vec<Option<usize>> = sim.robots().iter().map(|r| r.assignment.task_id).collect();
    assert_eq!(taken, vec![Some(9), Some(7), Some(11), Some(8), Some(0)]);
    assert_eq!(sim.tasks()[9].assigned_to, Some(0));
    assert_eq!(sim.tasks()[7].assigned_to, Some(1));
    assert_eq!(sim.tasks()[11].assigned_to, Some(2));
    assert_eq!(sim.tasks()[8].assigned_to, Some(3));
    assert_eq!(sim.tasks()[0].assigned_to, Some(4));
    assert_eq!(sim.pending(), 5);
    assert_eq!(sim.now(), 0);
    assert_assignments_agree(&sim);
}

#[test]
fn allocation_schedules_the_arrival_after_the_travel_time() {
    let mut sim = world(1, 12);
    sim.advance(100_000);
    assert_eq!(sim.robots()[0].assignment.task_id, Some(9));
    assert_eq!(sim.pending(), 1);
    run_simulation(&mut sim, 843);
    assert_eq!(sim.pending(), 1);
    assert_eq!(sim.robots()[0].position, Point::new(-4000, 500, 0));
    run_simulation(&mut sim, 1);
    assert_eq!(sim.now(), 100_844);
    assert_eq!(sim.pending(), 0);
    assert_eq!(sim.robots()[0].position, Point::new(-4316, 500, -3355));
    assert!(sim.tasks()[9].completed);
    assert_eq!(sim.tasks()[9].assigned_to, None);
    assert_eq!(sim.robots()[0].assignment.task_id, None);
}

#[test]
fn allocation_leaves_busy_robots_alone() {
    let mut sim = world(2, 12);
    allocate_tasks(&mut sim);
    let before_robots = sim.robots().clone();
    let before_tasks = sim.tasks().clone();
    allocate_tasks(&mut sim);
    assert_eq!(sim.robots(), &before_robots);
    assert_eq!(sim.tasks(), &before_tasks);
    assert_eq!(sim.pending(), 2);
}

#[test]
fn robot_without_an_eligible_task_stays_idle() {
    let mut sim = world(3, 1);
    sim.advance(10);
    let taken: Vec<Option<usize>> = sim.robots().iter().map(|r| r.assignment.task_id).collect();
    assert_eq!(taken.iter().filter(|t| t.is_some()).count(), 1);
    assert_eq!(sim.pending(), 1);
    let mut none = world(2, 0);
    none.advance(10);
    assert_eq!(none.pending(), 0);
    assert!(none.robots().iter().all(|r| r.assignment.task_id.is_none()));
}

#[test]
fn world_without_robots_completes_nothing() {
    let mut sim = world(0, 3);
    for _ in 0..10 {
        sim.advance(1000);
    }
    assert_eq!(sim.pending(), 0);
    assert!(sim.tasks().iter().all(|t| !t.completed && t.assigned_to.is_none()));
}

#[test]
fn robot_on_top_of_a_task_arrives_after_the_floor() {
    let mut sim = world(1, 1);
    let site = task_position(0);
    sim.schedule(Event::move_robot(0, 0, site, None));
    run_simulation(&mut sim, 1000);
    assert_eq!(sim.robots()[0].position, site);
    assert_eq!(sim.robots()[0].position.distance_squared(sim.tasks()[0].position), 0);
    allocate_tasks(&mut sim);
    assert_eq!(sim.robots()[0].assignment.task_id, Some(0));
    run_simulation(&mut sim, 499);
    assert_eq!(sim.pending(), 1);
    assert!(!sim.tasks()[0].completed);
    run_simulation(&mut sim, 1);
    assert_eq!(sim.now(), 1500);
    assert_eq!(sim.pending(), 0);
    assert!(sim.tasks()[0].completed);
}

#[test]
fn a_robot_freed_in_a_tick_is_given_a_task_in_the_same_tick() {
    let mut sim = world(1, 12);
    sim.advance(0);
    assert_eq!(sim.robots()[0].assignment.task_id, Some(9));
    sim.advance(844);
    assert!(sim.tasks()[9].completed);
    assert_eq!(sim.robots()[0].assignment.task_id, Some(2));
    assert_eq!(sim.tasks()[2].assigned_to, Some(0));
    assert_eq!(sim.pending(), 1);
}

#[test]
fn one_long_tick_from_a_fresh_world() {
    let mut sim = world(NUM_ROBOTS, NUM_TASKS);
    sim.advance(100_000);
    assert_eq!(sim.now(), 100_000);
    assert_eq!(sim.pending(), 5);
    assert!(sim.tasks().iter().all(|t| !t.completed));
    for (i, robot) in sim.robots().iter().enumerate() {
        assert_eq!(robot.position, robot_start_position(i));
        assert_eq!(robot.path.points, vec![robot_start_position(i)]);
        assert!(robot.assignment.task_id.is_some());
    }
    assert_eq!(sim.robots()[0].position, Point::new(-4000, 500, 0));
    assert_assignments_agree(&sim);
}

#[test]
fn long_ticks_complete_every_task() {
    let mut sim = world(NUM_ROBOTS, NUM_TASKS);
    sim.advance(100_000);
    for _ in 0..20 {
        sim.advance(1000);
        assert_assignments_agree(&sim);
    }
    assert_eq!(sim.now(), 120_000);
    assert_eq!(sim.pending(), 0);
    assert!(sim.tasks().iter().all(|t| t.completed && t.assigned_to.is_none()));
    let last: Vec<Point> = sim.robots().iter().map(|r| *r.path.points.last().unwrap()).collect();
    assert_eq!(
        last,
        vec![
            Point::new(-2258, 500, -6318),
            Point::new(-4009, 500, 6677),
            Point::new(-1757, 500, -5907),
            Point::new(3421, 500, -5985),
            Point::new(3673, 500, -6316),
        ]
    );
    for (i, robot) in sim.robots().iter().enumerate() {
        assert_eq!(robot.path.points[0], robot_start_position(i));
        assert_eq!(*robot.path.points.last().unwrap(), robot.position);
        assert_eq!(robot.assignment.task_id, None);
    }
    assert_eq!(
        sim.robots()[0].path.points,
        vec![
            Point::new(-4000, 500, 0),
            Point::new(-4316, 500, -3355),
            Point::new(-6794, 500, -2946),
            Point::new(-2258, 500, -6318),
        ]
    );
}

#[test]
fn every_task_is_completed_within_a_few_ticks() {
    let mut sim = world(NUM_ROBOTS, NUM_TASKS);
    let mut ticks = 0;
    while !sim.tasks().iter().all(|t| t.completed) {
        sim.advance(1000);
        ticks += 1;
        assert!(ticks <= 6);
    }
    assert_eq!(ticks, 6);
    let mut single = world(1, 3);
    let mut ticks = 0;
    while !single.tasks().iter().all(|t| t.completed) {
        single.advance(1);
        ticks += 1;
        assert!(ticks <= 3 * (MAX_TRAVEL_TIME + 1));
    }
    assert_eq!(single.pending(), 0);
}

#[test]
fn completed_tasks_stay_completed() {
    let mut sim = world(2, 4);
    let mut done = vec![false; 4];
    for _ in 0..40 {
        sim.advance(300);
        for (j, task) in sim.tasks().iter().enumerate() {
            assert!(task.completed || !done[j]);
            done[j] = task.completed;
        }
    }
    assert!(done.iter().all(|d| *d));
}

#[test]
fn no_robot_holds_two_tasks_at_any_tick() {
    let mut sim = world(3, 10);
    assert_assignments_agree(&sim);
    for step in 0..60u64 {
        sim.advance(50 + 37 * (step % 5));
        assert_assignments_agree(&sim);
    }
    sim.reset();
    assert_assignments_agree(&sim);
}

#[test]
fn equal_runs_give_equal_states() {
    let deltas = [16u64, 16, 17, 400, 0, 1, 950, 16, 2000, 33, 5000, 16];
    let mut a = world(NUM_ROBOTS, NUM_TASKS);
    let mut b = world(NUM_ROBOTS, NUM_TASKS);
    b.advance(700);
    b.reset();
    for d in deltas.iter() {
        a.advance(*d);
        b.advance(*d);
        assert_eq!(a.now(), b.now());
        assert_eq!(a.pending(), b.pending());
        assert_eq!(a.robots(), b.robots());
        assert_eq!(a.tasks(), b.tasks());
    }
    assert_eq!(a.now(), deltas.iter().sum::<u64>());
}

#[test]
fn reset_restores_the_fresh_world() {
    let mut sim = world(NUM_ROBOTS, NUM_TASKS);
    for _ in 0..4 {
        sim.advance(700);
    }
    assert!(sim.pending() > 0);
    assert!(sim.tasks().iter().any(|t| t.completed));
    sim.reset();
    assert_fresh(&sim, NUM_ROBOTS, NUM_TASKS);
    let fresh = world(NUM_ROBOTS, NUM_TASKS);
    assert_eq!(sim.robots(), fresh.robots());
    assert_eq!(sim.tasks(), fresh.tasks());
}

#[test]
fn reset_twice_is_reset_once() {
    let mut once = world(3, 7);
    let mut twice = world(3, 7);
    for sim in [&mut once, &mut twice] {
        sim.advance(1200);
        sim.advance(1200);
    }
    once.reset();
    twice.reset();
    twice.reset();
    assert_eq!(once.now(), twice.now());
    assert_eq!(once.pending(), twice.pending());
    assert_eq!(once.robots(), twice.robots());
    assert_eq!(once.tasks(), twice.tasks());
    assert_fresh(&twice, 3, 7);
}

#[test]
fn reset_of_a_fresh_world_changes_nothing() {
    let mut sim = world(2, 2);
    sim.reset();
    assert_fresh(&sim, 2, 2);
    let mut empty = Simulation::new();
    empty.reset();
    assert_fresh(&empty, 0, 0);
}

#[test]
fn reset_drops_pending_events() {
    let mut sim = world(2, 5);
    sim.advance(10);
    assert_eq!(sim.pending(), 2);
    sim.reset();
    assert_eq!(sim.pending(), 0);
    run_simulation(&mut sim, 1_000_000);
    assert!(sim.tasks().iter().all(|t| !t.completed));
    assert_eq!(sim.robots()[0].position, robot_start_position(0));
}

#[test]
fn the_clock_can_reach_its_limit() {
    let mut sim = world(1, 1);
    sim.advance(CLOCK_LIMIT);
    assert_eq!(sim.now(), CLOCK_LIMIT);
    assert_eq!(sim.pending(), 1);
    assert_eq!(sim.robots()[0].assignment.task_id, Some(0));
}

#[test]
fn paths_become_line_segments() {
    let mut sim = world(2, 0);
    assert_eq!(draw_robot_paths(&sim), Vec::new());
    let a = Point::new(1, 500, 1);
    let b = Point::new(2, 500, 2);
    let c = Point::new(3, 500, 3);
    sim.schedule(Event::move_robot(1, 1, a, None));
    sim.schedule(Event::move_robot(2, 1, b, None));
    sim.schedule(Event::move_robot(3, 0, c, None));
    run_simulation(&mut sim, 3);
    let s0 = robot_start_position(0);
    let s1 = robot_start_position(1);
    assert_eq!(draw_robot_paths(&sim), vec![(s0, c), (s1, a), (a, b)]);
}

#[test]
fn the_queue_of_a_simulation_can_be_read() {
    let mut sim = world(1, 12);
    assert!(sim.events().is_empty());
    sim.advance(100_000);
    let next = sim.events().peek().copied();
    assert_eq!(next, Some(Event::move_robot(100_844, 0, Point::new(-4316, 500, -3355), Some(9))));
    assert_eq!(sim.events().peek_due(100_843), None);
}
