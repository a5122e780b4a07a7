//! The executable simulation: a clock, an event queue and a registry of
//! robots and tasks, advanced tick by tick.

use vstd::prelude::*;
use vstd::multiset::*;
use crate::event::{Event, EventType};
use crate::geometry::{dist_sq, integer_sqrt, Point};
use crate::laws::{coherent, lemma_initial_coherent, lemma_tick_coherent};
use crate::model::{Robot, RobotAssignment, RobotPath, Task};
use crate::placement::{robot_start_position, task_position, MAX_ROBOTS, ROBOT_HEIGHT};
use crate::queue::EventQueue;
use crate::rules::{
    all_segments, fresh_robot, fresh_task, is_nearest, lemma_nearest_is, lemma_travel_time_bounds,
    nearest, segments, travel_time, State, CLOCK_LIMIT, MIN_TRAVEL_TIME, SPEED,
};

verus! {

/// The time that a robot takes to cover a distance given by its square.
pub fn compute_travel_time(distance_squared: u128) -> (t: u64)
    ensures
        t == travel_time(distance_squared as nat),
        t >= MIN_TRAVEL_TIME,
{
    let t = integer_sqrt(distance_squared) / SPEED;
    if t < MIN_TRAVEL_TIME {
        MIN_TRAVEL_TIME
    } else {
        t
    }
}

/// Finds the task that a robot standing at `from` takes: the nearest
/// eligible task, and among equally near ones the first.
pub fn nearest_task(tasks: &Vec<Task>, from: Point) -> (best: Option<usize>)
    ensures
        best is Some <==> exists|k: int| 0 <= k < tasks@.len() && (#[trigger] tasks@[k]).eligible(),
        best matches Some(j) ==> is_nearest(tasks@, from, j as int),
        nearest(tasks@, from) == match best {
            Some(j) => Some(j as int),
            None => None,
        },
{
    let mut best: Option<usize> = None;
    let mut best_distance: u128 = 0;
    let mut k: usize = 0;
    while k < tasks.len()
        invariant
            k <= tasks@.len(),
            best is None ==> forall|i: int| 0 <= i < k ==> !(#[trigger] tasks@[i]).eligible(),
            best matches Some(j) ==> j < k && best_distance == dist_sq(from, tasks@[j as int].position)
                && is_nearest(tasks@.take(k as int), from, j as int),
        decreases tasks@.len() - k,
    {
        if tasks[k].is_eligible() {
            let distance = from.distance_squared(tasks[k].position);
            if best.is_none() || distance < best_distance {
                best = Some(k);
                best_distance = distance;
            }
        }
        k += 1;
    }
    proof {
        assert(tasks@.take(k as int) =~= tasks@);
        match best {
            Some(j) => {
                lemma_nearest_is(tasks@, from, j as int);
            },
            None => {},
        }
    }
    best
}

/// A simulation: the clock, the pending events, and the registry of robots
/// and tasks.
#[derive(Clone, Debug)]
pub struct Simulation {
    now: u64,
    events: EventQueue,
    robots: Vec<Robot>,
    tasks: Vec<Task>,
}

impl View for Simulation {
    type V = State;

    closed spec fn view(&self) -> State {
        State {
            now: self.now as nat,
            events: self.events@,
            robots: Seq::new(self.robots@.len(), |i: int| self.robots@[i]@),
            tasks: self.tasks@,
        }
    }
}

impl Simulation {
    /// The simulation is in order: the ids of robots and tasks are their
    /// places in the registry, and the queue yields events in their order.
    pub closed spec fn wf(&self) -> bool {
        &&& self.events.wf()
        &&& self@.registered()
    }

    /// A well-formed simulation has a registry in id order.
    pub proof fn lemma_wf_registered(&self)
        requires
            self.wf(),
        ensures
            self@.registered(),
    {
    }

    /// In a well-formed simulation every robot and task has its place in the
    /// registry as its id.
    proof fn lemma_ids(&self)
        requires
            self.wf(),
        ensures
            self.robots@.len() <= MAX_ROBOTS,
            forall|k: int| 0 <= k < self.robots@.len() ==> (#[trigger] self.robots@[k]).id == k,
            forall|k: int| 0 <= k < self.tasks@.len() ==> (#[trigger] self.tasks@[k]).id == k,
    {
        assert forall|k: int| 0 <= k < self.robots@.len() implies (#[trigger] self.robots@[k]).id == k by {
            assert(self@.robots[k].id == k);
        }
    }

    /// A simulation without robots or tasks, with the clock at zero and
    /// nothing pending.
    pub fn new() -> (sim: Simulation)
        ensures
            sim.wf(),
            sim@ == State::initial(0, 0),
    {
        let sim = Simulation { now: 0, events: EventQueue::new(), robots: Vec::new(), tasks: Vec::new() };
        assert(sim@.robots =~= State::initial(0, 0).robots);
        assert(sim@.tasks =~= State::initial(0, 0).tasks);
        sim
    }

    /// Adds `event` to the pending events.
    ///
    /// Any event is taken and will be executed when it is due.  An event
    /// that the allocator would not have scheduled can leave robots, tasks
    /// and queue at odds with each other: the laws on coherent states then
    /// no longer apply until the next reset.
    pub fn schedule(&mut self, event: Event)
        requires
            old(self).wf(),
        ensures
            final(self).wf(),
            final(self)@ == old(self)@.schedule(event),
    {
        self.events.push(event);
    }

    /// The clock, in milliseconds since the epoch began.
    pub fn now(&self) -> (t: u64)
        ensures
            t == self@.now,
    {
        self.now
    }

    /// The pending events.
    pub fn events(&self) -> (events: &EventQueue)
        ensures
            self.wf() ==> events.wf(),
            events@ == self@.events,
    {
        &self.events
    }

    /// The number of pending events.
    pub fn pending(&self) -> (n: usize)
        ensures
            n == self@.events.len(),
    {
        self.events.len()
    }

    /// The robots, in id order.
    pub fn robots(&self) -> (robots: &Vec<Robot>)
        ensures
            robots@.len() == self@.robots.len(),
            forall|i: int| 0 <= i < robots@.len() ==> (#[trigger] robots@[i])@ == self@.robots[i],
    {
        &self.robots
    }

    /// The tasks, in id order.
    pub fn tasks(&self) -> (tasks: &Vec<Task>)
        ensures
            tasks@ == self@.tasks,
    {
        &self.tasks
    }

    /// Executes one event on the registry.
    fn execute(&mut self, event: Event)
        requires
            old(self).wf(),
        ensures
            final(self).wf(),
            final(self)@ == old(self)@.execute(event),
    {
        match event.event_type {
            EventType::MoveRobot { robot_id, target, task_id } => {
                if robot_id < self.robots.len() {
                    let from = self.robots[robot_id].position;
                    let recorded = self.robots[robot_id].path.points.len();
                    if recorded == 0 || self.robots[robot_id].path.points[recorded - 1] != from {
                        self.robots[robot_id].path.points.push(from);
                    }
                    self.robots[robot_id].path.points.push(target);
                    self.robots[robot_id].position = target;
                    self.robots[robot_id].assignment.task_id = None;
                    if let Some(t) = task_id {
                        if t < self.tasks.len() {
                            self.tasks[t].completed = true;
                            self.tasks[t].assigned_to = None;
                        }
                    }
                    proof {
                        let goal = old(self)@.execute(event);
                        assert(self@.robots =~= goal.robots);
                        assert(self@.tasks =~= goal.tasks);
                    }
                }
            },
        }
    }

    /// Offers robot `r` a task: if the robot is idle and an eligible task
    /// exists, the robot takes the nearest one and its arrival is scheduled.
    fn offer(&mut self, r: usize)
        requires
            old(self).wf(),
            r < old(self)@.robots.len(),
            old(self)@.now <= CLOCK_LIMIT,
        ensures
            final(self).wf(),
            final(self)@ == old(self)@.offer(r as int),
    {
        if !self.robots[r].is_idle() {
            return ;
        }
        let from = self.robots[r].position;
        match nearest_task(&self.tasks, from) {
            None => {},
            Some(j) => {
                let robot_id = self.robots[r].id;
                let task_id = self.tasks[j].id;
                let site = self.tasks[j].position;
                proof {
                    lemma_travel_time_bounds(from, site);
                }
                let arrival = self.now + compute_travel_time(from.distance_squared(site));
                self.robots[r].assignment.task_id = Some(task_id);
                self.tasks[j].assigned_to = Some(robot_id);
                self.events.push(
                    Event::move_robot(
                        arrival,
                        robot_id,
                        Point { x: site.x, y: ROBOT_HEIGHT, z: site.z },
                        Some(task_id),
                    ),
                );
                proof {
                    let goal = old(self)@.offer(r as int);
                    assert(self@.robots =~= goal.robots);
                    assert(self@.tasks =~= goal.tasks);
                }
            },
        }
    }

    /// One tick: moves the clock forward by `delta` milliseconds, executes
    /// the events that have become due, and gives the idle robots tasks.
    pub fn advance(&mut self, delta: u64)
        requires
            old(self).wf(),
            old(self)@.now + delta <= CLOCK_LIMIT,
        ensures
            final(self).wf(),
            final(self)@ == old(self)@.tick(delta as nat),
            final(self)@.now == old(self)@.now + delta,
            final(self)@.robots.len() == old(self)@.robots.len(),
            final(self)@.tasks.len() == old(self)@.tasks.len(),
            coherent(old(self)@) ==> coherent(final(self)@),
    {
        proof {
            if coherent(self@) {
                lemma_tick_coherent(self@, delta as nat);
            }
        }
        run_simulation(self, delta);
        allocate_tasks(self);
    }

    /// Begins a new epoch: the clock returns to zero, pending events are
    /// dropped, and every robot and task is as it was when the world was
    /// set up.
    pub fn reset(&mut self)
        requires
            old(self).wf(),
        ensures
            final(self).wf(),
            final(self)@ == old(self)@.reset(),
            coherent(final(self)@),
    {
        proof {
            self.lemma_ids();
        }
        self.now = 0;
        self.events.clear();
        reset_robots(&mut self.robots);
        reset_tasks(&mut self.tasks);
        proof {
            let goal = old(self)@.reset();
            lemma_initial_coherent(self.robots@.len(), self.tasks@.len());
            assert(self@.robots =~= goal.robots);
            assert(self@.tasks =~= goal.tasks);
        }
    }
}

/// Puts every robot back where it started.
fn reset_robots(robots: &mut Vec<Robot>)
    requires
        old(robots)@.len() <= MAX_ROBOTS,
        forall|k: int| 0 <= k < old(robots)@.len() ==> (#[trigger] old(robots)@[k]).id == k,
    ensures
        final(robots)@.len() == old(robots)@.len(),
        forall|k: int| 0 <= k < final(robots)@.len() ==> (#[trigger] final(robots)@[k])@ == fresh_robot(k as nat),
{
    let count = robots.len();
    let mut i: usize = 0;
    while i < count
        invariant
            i <= count == robots@.len() <= MAX_ROBOTS,
            forall|k: int| 0 <= k < i ==> (#[trigger] robots@[k])@ == fresh_robot(k as nat),
            forall|k: int| i <= k < count ==> (#[trigger] robots@[k]).id == k,
        decreases count - i,
    {
        reset_robot(&mut robots[i]);
        i += 1;
    }
}

/// Puts every task back at its site.
fn reset_tasks(tasks: &mut Vec<Task>)
    requires
        forall|k: int| 0 <= k < old(tasks)@.len() ==> (#[trigger] old(tasks)@[k]).id == k,
    ensures
        final(tasks)@.len() == old(tasks)@.len() <= usize::MAX,
        forall|k: int| 0 <= k < final(tasks)@.len() ==> (#[trigger] final(tasks)@[k]) == fresh_task(k as nat),
{
    let count = tasks.len();
    let mut j: usize = 0;
    while j < count
        invariant
            j <= count == tasks@.len(),
            forall|k: int| 0 <= k < j ==> (#[trigger] tasks@[k]) == fresh_task(k as nat),
            forall|k: int| j <= k < count ==> (#[trigger] tasks@[k]).id == k,
        decreases count - j,
    {
        reset_task(&mut tasks[j]);
        j += 1;
    }
}

/// Puts a robot back where it started: idle, with a path that holds the
/// start position alone.
fn reset_robot(robot: &mut Robot)
    requires
        old(robot).id < MAX_ROBOTS,
    ensures
        final(robot)@ == fresh_robot(old(robot).id as nat),
{
    let start = robot_start_position(robot.id);
    robot.position = start;
    robot.assignment.task_id = None;
    robot.path.points.clear();
    robot.path.points.push(start);
    assert(robot@.path =~= fresh_robot(robot.id as nat).path);
}

/// Puts a task back at its site, free and not completed.
fn reset_task(task: &mut Task)
    ensures
        *final(task) == fresh_task(old(task).id as nat),
{
    task.assigned_to = None;
    task.completed = false;
    task.position = task_position(task.id);
}

/// Populates the registry with `num_robots` fresh robots and `num_tasks`
/// fresh tasks, in place of whatever it held. The clock and the pending
/// events stay as they are.
pub fn setup_world(sim: &mut Simulation, num_robots: usize, num_tasks: usize)
    requires
        old(sim).wf(),
        num_robots <= MAX_ROBOTS,
    ensures
        final(sim).wf(),
        final(sim)@ == (State {
            robots: State::initial(num_robots as nat, num_tasks as nat).robots,
            tasks: State::initial(num_robots as nat, num_tasks as nat).tasks,
            ..old(sim)@
        }),
{
    let mut robots: Vec<Robot> = Vec::new();
    let mut i: usize = 0;
    while i < num_robots
        invariant
            i <= num_robots <= MAX_ROBOTS,
            robots@.len() == i,
            forall|k: int| 0 <= k < i ==> (#[trigger] robots@[k])@ == fresh_robot(k as nat),
        decreases num_robots - i,
    {
        let start = robot_start_position(i);
        let mut points: Vec<Point> = Vec::new();
        points.push(start);
        let robot = Robot {
            id: i,
            position: start,
            assignment: RobotAssignment { task_id: None },
            path: RobotPath { points },
        };
        assert(robot@.path =~= fresh_robot(i as nat).path);
        robots.push(robot);
        i += 1;
    }
    let mut tasks: Vec<Task> = Vec::new();
    let mut j: usize = 0;
    while j < num_tasks
        invariant
            j <= num_tasks,
            tasks@.len() == j,
            forall|k: int| 0 <= k < j ==> (#[trigger] tasks@[k]) == fresh_task(k as nat),
        decreases num_tasks - j,
    {
        tasks.push(Task { id: j, position: task_position(j), assigned_to: None, completed: false });
        j += 1;
    }
    sim.robots = robots;
    sim.tasks = tasks;
    proof {
        let goal = State::initial(num_robots as nat, num_tasks as nat);
        assert(sim@.robots =~= goal.robots);
        assert(sim@.tasks =~= goal.tasks);
    }
}

/// Moves the clock forward by `delta` milliseconds and executes every event
/// that is then due, earliest first.
pub fn run_simulation(sim: &mut Simulation, delta: u64)
    requires
        old(sim).wf(),
        old(sim)@.now + delta <= u64::MAX,
    ensures
        final(sim).wf(),
        final(sim)@ == old(sim)@.later(delta as nat).drain(),
        final(sim)@.now == old(sim)@.now + delta,
        final(sim)@.robots.len() == old(sim)@.robots.len(),
        final(sim)@.tasks.len() == old(sim)@.tasks.len(),
{
    sim.now = sim.now + delta;
    let ghost start = sim@;
    proof {
        start.lemma_drain_settles();
    }
    loop
        invariant
            sim.wf(),
            sim@.drain() == start.drain(),
        ensures
            sim.wf(),
            sim@ == start.drain(),
        decreases sim@.events.len(),
    {
        let ghost before = sim@;
        match sim.events.pop_due(sim.now) {
            None => {
                break ;
            },
            Some(event) => {
                proof {
                    broadcast use group_multiset_axioms;

                    assert(Multiset::singleton(event).subset_of(before.events));
                }
                sim.execute(event);
            },
        }
    }
}

/// One allocation pass: offers every robot a task, in id order.
pub fn allocate_tasks(sim: &mut Simulation)
    requires
        old(sim).wf(),
        old(sim)@.now <= CLOCK_LIMIT,
    ensures
        final(sim).wf(),
        final(sim)@ == old(sim)@.allocate(),
        final(sim)@.now == old(sim)@.now,
        final(sim)@.robots.len() == old(sim)@.robots.len(),
        final(sim)@.tasks.len() == old(sim)@.tasks.len(),
{
    proof {
        sim@.lemma_allocate_keeps_size(0);
    }
    let robots = sim.robots.len();
    let mut r: usize = 0;
    while r < robots
        invariant
            sim.wf(),
            r <= robots == sim@.robots.len(),
            sim@.now <= CLOCK_LIMIT,
            sim@.allocate_from(r as int) == old(sim)@.allocate(),
        decreases robots - r,
    {
        sim.offer(r);
        r += 1;
    }
}

/// The line segments to draw for the paths of all robots: for each robot in
/// id order, one segment from each waypoint to the next.  A path of fewer
/// than two waypoints gives none.
pub fn draw_robot_paths(sim: &Simulation) -> (lines: Vec<(Point, Point)>)
    ensures
        lines@ == all_segments(sim@.robots),
{
    let mut lines: Vec<(Point, Point)> = Vec::new();
    let mut r: usize = 0;
    while r < sim.robots.len()
        invariant
            r <= sim.robots@.len(),
            lines@ == all_segments(sim@.robots.take(r as int)),
        decreases sim.robots@.len() - r,
    {
        let ghost done = lines@;
        let points = &sim.robots[r].path.points;
        let mut k: usize = 1;
        while k < points.len()
            invariant
                1 <= k,
                k <= points@.len() || k == 1,
                lines@ == done + segments(points@).take(k - 1),
            decreases points@.len() - k,
        {
            lines.push((points[k - 1], points[k]));
            proof {
                let all = segments(points@);
                assert(all.take(k as int) =~= all.take(k - 1).push(all[k - 1]));
                assert(lines@ =~= done + all.take(k as int));
            }
            k += 1;
        }
        proof {
            let all = segments(points@);
            assert(all.take(k - 1) =~= all);
            let upto = sim@.robots.take(r + 1);
            assert(upto.drop_last() =~= sim@.robots.take(r as int));
            assert(upto.last().path == points@);
        }
        r += 1;
    }
    proof {
        assert(sim@.robots.take(r as int) =~= sim@.robots);
    }
    lines
}

} // verus!
