//! The rules of the simulation, as functions on mathematical states.
//!
//! A [`State`] is what a simulation is from the outside: a clock, a multiset
//! of pending events, and the robots and tasks in id order.  The functions
//! here say how one state follows from another; the executable simulation is
//! proved to follow them step for step.

use vstd::prelude::*;
use vstd::multiset::*;
use crate::event::{Event, EventType};
use crate::geometry::{
    dist_sq, lemma_dist_sq_bounds, lemma_sqrt_floor_exists, lemma_square_monotonic, sqrt_floor, Point,
};
use crate::model::{RobotState, Task};
use crate::placement::{robot_start, task_site, MAX_ROBOTS, ROBOT_HEIGHT};
use crate::queue::{earliest, lemma_earliest_exists, next_due};

verus! {

/// Speed of every robot, in millimetres per millisecond.
pub const SPEED: u64 = 4;

/// No journey takes less than this many milliseconds, however short.
pub const MIN_TRAVEL_TIME: u64 = 500;

/// No journey takes longer than this many milliseconds, however far apart
/// its ends.
pub const MAX_TRAVEL_TIME: u64 = 0x8000_0000;

/// The latest clock value at which journeys can still be scheduled: every
/// arrival time from here fits the range of timestamps.
pub const CLOCK_LIMIT: u64 = 0xffff_ffff_7fff_ffff;

/// The time, in milliseconds, that a robot takes to cover a distance given by
/// its square: distance over speed, rounded down, but at least
/// `MIN_TRAVEL_TIME`.
pub open spec fn travel_time(distance_squared: nat) -> nat {
    let t = sqrt_floor(distance_squared) / SPEED as nat;
    if t < MIN_TRAVEL_TIME as nat {
        MIN_TRAVEL_TIME as nat
    } else {
        t
    }
}

/// Travel times between any two points lie between the floor and the cap.
pub proof fn lemma_travel_time_bounds(a: Point, b: Point)
    ensures
        MIN_TRAVEL_TIME <= travel_time(dist_sq(a, b)) < MAX_TRAVEL_TIME,
        travel_time(dist_sq(a, a)) == MIN_TRAVEL_TIME,
{
    lemma_dist_sq_bounds(a, b);
    lemma_dist_sq_bounds(a, a);
    let d = dist_sq(a, b);
    lemma_sqrt_floor_exists(d);
    let r = sqrt_floor(d);
    if r >= 0x2_0000_0000 {
        lemma_square_monotonic(0x2_0000_0000, r);
        assert(0x2_0000_0000 * 0x2_0000_0000 > 3 * 0xffff_ffff * 0xffff_ffff) by (nonlinear_arith);
    }
    lemma_sqrt_floor_exists(0);
}

/// The state of a simulation as a mathematical value.
pub struct State {
    /// The clock, in milliseconds since the epoch began.
    pub now: nat,
    /// The pending events.
    pub events: Multiset<Event>,
    /// The robots, in id order.
    pub robots: Seq<RobotState>,
    /// The tasks, in id order.
    pub tasks: Seq<Task>,
}

/// A robot as an epoch begins: at its start position, idle, with a path that
/// holds the start position alone.
pub open spec fn fresh_robot(id: nat) -> RobotState {
    RobotState { id: id as usize, position: robot_start(id), task_id: None, path: seq![robot_start(id)] }
}

/// A task as an epoch begins: at its site, free and not completed.
pub open spec fn fresh_task(id: nat) -> Task {
    Task { id: id as usize, position: task_site(id), assigned_to: None, completed: false }
}

/// The path of a robot that stood at `from` and has arrived at `to`.  The
/// place it left is recorded unless it already ends the path; the place it
/// reached is recorded always.
pub open spec fn extend_path(path: Seq<Point>, from: Point, to: Point) -> Seq<Point> {
    if path.len() > 0 && path.last() == from {
        path.push(to)
    } else {
        path.push(from).push(to)
    }
}

/// A robot after its arrival at `target`: it stands there, idle again.
pub open spec fn arrive(robot: RobotState, target: Point) -> RobotState {
    RobotState {
        position: target,
        task_id: None,
        path: extend_path(robot.path, robot.position, target),
        ..robot
    }
}

/// A task after a robot has completed it.
pub open spec fn complete(task: Task) -> Task {
    Task { completed: true, assigned_to: None, ..task }
}

/// The place where a robot stops to serve a task at `site`: above the site,
/// at robot height.
pub open spec fn stop_above(site: Point) -> Point {
    Point { x: site.x, y: ROBOT_HEIGHT, z: site.z }
}

/// The line segments that trace a path: one from each waypoint to the next.
pub open spec fn segments(path: Seq<Point>) -> Seq<(Point, Point)> {
    Seq::new(
        if path.len() < 2 {
            0
        } else {
            (path.len() - 1) as nat
        },
        |k: int| (path[k], path[k + 1]),
    )
}

/// The line segments that trace the paths of all robots, robot by robot in
/// id order.
pub open spec fn all_segments(robots: Seq<RobotState>) -> Seq<(Point, Point)>
    decreases robots.len(),
{
    if robots.len() == 0 {
        Seq::empty()
    } else {
        all_segments(robots.drop_last()) + segments(robots.last().path)
    }
}

/// Whether `j` is the task that a robot standing at `from` takes: an eligible
/// task that no eligible task is nearer than, and the first such in id order.
pub open spec fn is_nearest(tasks: Seq<Task>, from: Point, j: int) -> bool {
    &&& 0 <= j < tasks.len()
    &&& tasks[j].eligible()
    &&& forall|k: int|
        0 <= k < tasks.len() && (#[trigger] tasks[k]).eligible() ==> dist_sq(from, tasks[j].position)
            <= dist_sq(from, tasks[k].position)
    &&& forall|k: int|
        0 <= k < j && (#[trigger] tasks[k]).eligible() ==> dist_sq(from, tasks[j].position) < dist_sq(
            from,
            tasks[k].position,
        )
}

/// The task that a robot standing at `from` takes, if there is an eligible
/// one.
pub open spec fn nearest(tasks: Seq<Task>, from: Point) -> Option<int> {
    if exists|j: int| is_nearest(tasks, from, j) {
        Some(choose|j: int| is_nearest(tasks, from, j))
    } else {
        None
    }
}

/// At most one task is the nearest.
pub proof fn lemma_nearest_unique(tasks: Seq<Task>, from: Point, a: int, b: int)
    requires
        is_nearest(tasks, from, a),
        is_nearest(tasks, from, b),
    ensures
        a == b,
{
}

/// Whatever satisfies `is_nearest` is the value of `nearest`.
pub proof fn lemma_nearest_is(tasks: Seq<Task>, from: Point, j: int)
    requires
        is_nearest(tasks, from, j),
    ensures
        nearest(tasks, from) == Some(j),
{
    lemma_nearest_unique(tasks, from, j, choose|k: int| is_nearest(tasks, from, k));
}

/// The event that brings `robot` to `task` when the journey begins at `now`:
/// the arrival above the site of the task, one travel time later.
pub open spec fn journey(robot: RobotState, task: Task, now: nat) -> Event {
    Event {
        timestamp: (now + travel_time(dist_sq(robot.position, task.position))) as u64,
        event_type: EventType::MoveRobot {
            robot_id: robot.id,
            target: stop_above(task.position),
            task_id: Some(task.id),
        },
    }
}

impl State {
    /// The state in which an epoch with the given numbers of robots and
    /// tasks begins: clock at zero, nothing pending, every robot and task
    /// fresh.
    pub open spec fn initial(robots: nat, tasks: nat) -> State {
        State {
            now: 0,
            events: Multiset::empty(),
            robots: Seq::new(robots, |i: int| fresh_robot(i as nat)),
            tasks: Seq::new(tasks, |j: int| fresh_task(j as nat)),
        }
    }

    /// The ids of robots and tasks are their places in the registry, and the
    /// robots are no more than `MAX_ROBOTS`.
    pub open spec fn registered(self) -> bool {
        &&& self.robots.len() <= MAX_ROBOTS
        &&& forall|i: int| 0 <= i < self.robots.len() ==> (#[trigger] self.robots[i]).id == i
        &&& forall|j: int| 0 <= j < self.tasks.len() ==> (#[trigger] self.tasks[j]).id == j
    }

    /// The state after a reset: the initial state of a world of the same
    /// size.
    pub open spec fn reset(self) -> State {
        State::initial(self.robots.len(), self.tasks.len())
    }

    /// The state with one more pending event.
    pub open spec fn schedule(self, event: Event) -> State {
        State { events: self.events.insert(event), ..self }
    }

    /// The state with the clock moved forward by `delta`.
    pub open spec fn later(self, delta: nat) -> State {
        State { now: self.now + delta, ..self }
    }

    /// The effect of one event on the registry.
    ///
    /// The robot it names arrives at the target.  The task it names, if any,
    /// is completed.  An event that names no robot of the registry has no
    /// effect at all, and a task that is not in the registry is passed over.
    pub open spec fn execute(self, event: Event) -> State {
        match event.event_type {
            EventType::MoveRobot { robot_id, target, task_id } => {
                if robot_id < self.robots.len() {
                    State {
                        robots: self.robots.update(
                            robot_id as int,
                            arrive(self.robots[robot_id as int], target),
                        ),
                        tasks: match task_id {
                            Some(t) if t < self.tasks.len() => self.tasks.update(
                                t as int,
                                complete(self.tasks[t as int]),
                            ),
                            _ => self.tasks,
                        },
                        ..self
                    }
                } else {
                    self
                }
            },
        }
    }

    /// The state after the next due event has been taken from the queue and
    /// executed.
    pub open spec fn step(self, event: Event) -> State {
        State { events: self.events.remove(event), ..self }.execute(event)
    }

    /// The state after every due event has been executed, earliest first.
    pub open spec fn drain(self) -> State
        decreases self.events.len(),
        via Self::drain_decreases
    {
        match next_due(self.events, self.now) {
            Some(event) => self.step(event).drain(),
            None => self,
        }
    }

    /// Taking the earliest event out leaves fewer events.
    #[via_fn]
    proof fn drain_decreases(self) {
        broadcast use group_multiset_axioms;

        if self.events.len() > 0 {
            lemma_earliest_exists(self.events);
            let e = earliest(self.events);
            assert(Multiset::singleton(e).subset_of(self.events));
        }
    }

    /// Draining leaves the clock and the size of the registry alone, and no
    /// due event behind.
    pub proof fn lemma_drain_settles(self)
        ensures
            self.drain().now == self.now,
            self.drain().robots.len() == self.robots.len(),
            self.drain().tasks.len() == self.tasks.len(),
            next_due(self.drain().events, self.now) is None,
        decreases self.events.len(),
    {
        broadcast use group_multiset_axioms;

        match next_due(self.events, self.now) {
            Some(event) => {
                lemma_earliest_exists(self.events);
                assert(Multiset::singleton(event).subset_of(self.events));
                self.step(event).lemma_drain_settles();
            },
            None => {},
        }
    }

    /// The state after robot `r` has been offered a task: an idle robot takes
    /// the nearest eligible task, if there is one, and its arrival there is
    /// scheduled; otherwise nothing changes.
    pub open spec fn offer(self, r: int) -> State {
        let robot = self.robots[r];
        if robot.idle() {
            match nearest(self.tasks, robot.position) {
                Some(j) => State {
                    robots: self.robots.update(r, RobotState { task_id: Some(self.tasks[j].id), ..robot }),
                    tasks: self.tasks.update(j, Task { assigned_to: Some(robot.id), ..self.tasks[j] }),
                    events: self.events.insert(journey(robot, self.tasks[j], self.now)),
                    ..self
                },
                None => self,
            }
        } else {
            self
        }
    }

    /// The state after the robots from `r` on have each been offered a task,
    /// in id order.
    pub open spec fn allocate_from(self, r: int) -> State
        decreases self.robots.len() - r,
    {
        if 0 <= r < self.robots.len() {
            self.offer(r).allocate_from(r + 1)
        } else {
            self
        }
    }

    /// An allocation pass leaves the clock and the size of the registry
    /// alone.
    pub proof fn lemma_allocate_keeps_size(self, r: int)
        ensures
            self.allocate_from(r).now == self.now,
            self.allocate_from(r).robots.len() == self.robots.len(),
            self.allocate_from(r).tasks.len() == self.tasks.len(),
        decreases self.robots.len() - r,
    {
        if 0 <= r < self.robots.len() {
            self.offer(r).lemma_allocate_keeps_size(r + 1);
        }
    }

    /// The state after one allocation pass over all robots.
    pub open spec fn allocate(self) -> State {
        self.allocate_from(0)
    }

    /// The state after one tick: the clock moves forward by `delta`, the due
    /// events are executed, and the idle robots are given tasks.
    pub open spec fn tick(self, delta: nat) -> State {
        self.later(delta).drain().allocate()
    }

    /// A tick moves the clock forward by `delta` and leaves the size of the
    /// registry alone.
    pub proof fn lemma_tick_keeps_size(self, delta: nat)
        ensures
            self.tick(delta).now == self.now + delta,
            self.tick(delta).robots.len() == self.robots.len(),
            self.tick(delta).tasks.len() == self.tasks.len(),
    {
        self.later(delta).lemma_drain_settles();
        self.later(delta).drain().lemma_allocate_keeps_size(0);
    }
}

} // verus!
