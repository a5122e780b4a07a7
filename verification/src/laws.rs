//! What holds of every simulation: the laws that follow from the rules.

use vstd::prelude::*;
use vstd::multiset::*;
use crate::event::Event;
use crate::geometry::dist_sq;
use crate::model::{RobotState, Task};
use crate::placement::MAX_ROBOTS;
use crate::queue::{lemma_earliest_exists, next_due};
use crate::rules::{
    fresh_robot, fresh_task, is_nearest, journey, lemma_travel_time_bounds, nearest, travel_time,
    State, CLOCK_LIMIT, MIN_TRAVEL_TIME,
};
use crate::simulation::Simulation;

verus! {

/// Whether the books of robot `i` are in order: a busy robot serves a task
/// that exists, is not completed, and names the robot in turn.
pub open spec fn robot_in_order(s: State, i: int) -> bool {
    s.robots[i].task_id matches Some(t) ==> {
        &&& t < s.tasks.len()
        &&& s.tasks[t as int].assigned_to == Some(i as usize)
        &&& !s.tasks[t as int].completed
        &&& exists|e: Event| #[trigger] s.events.contains(e) && e.robot() == i
    }
}

/// Whether the books of task `j` are in order: a taken task names a robot
/// that exists and serves the task in turn.
pub open spec fn task_in_order(s: State, j: int) -> bool {
    s.tasks[j].assigned_to matches Some(r) ==> r < s.robots.len() && s.robots[r as int].task_id
        == Some(j as usize)
}

/// Whether the pending event `e` is in order: it is pending once, and it
/// brings a robot that exists to the task that the robot serves.
pub open spec fn event_in_order(s: State, e: Event) -> bool {
    &&& s.events.count(e) == 1
    &&& e.robot() < s.robots.len()
    &&& e.task() is Some
    &&& s.robots[e.robot() as int].task_id == e.task()
}

/// Whether robots, tasks and pending events agree with each other.
///
/// Every busy robot serves a task that names it and has exactly one pending
/// arrival; every taken task names a robot that serves it; and every pending
/// event is the arrival of a busy robot at its task.
pub open spec fn coherent(s: State) -> bool {
    &&& s.registered()
    &&& forall|i: int| 0 <= i < s.robots.len() ==> #[trigger] robot_in_order(s, i)
    &&& forall|j: int| 0 <= j < s.tasks.len() ==> #[trigger] task_in_order(s, j)
    &&& forall|e: Event| #[trigger] s.events.contains(e) ==> event_in_order(s, e)
    &&& forall|a: Event, b: Event|
        #![trigger s.events.contains(a), s.events.contains(b)]
        s.events.contains(a) && s.events.contains(b) && a.robot() == b.robot() ==> a == b
}

/// The time that a run of ticks takes: the sum of its deltas.
pub open spec fn total_time(deltas: Seq<nat>) -> nat
    decreases deltas.len(),
{
    if deltas.len() == 0 {
        0
    } else {
        deltas[0] + total_time(deltas.drop_first())
    }
}

/// The state after a run of ticks, one for each of `deltas`, in order.
pub open spec fn run(s: State, deltas: Seq<nat>) -> State
    decreases deltas.len(),
{
    if deltas.len() == 0 {
        s
    } else {
        run(s.tick(deltas[0]), deltas.drop_first())
    }
}

/// A run of ticks moves the clock forward by the sum of its deltas and
/// leaves the size of the registry alone.
pub proof fn lemma_run_keeps_size(s: State, deltas: Seq<nat>)
    ensures
        run(s, deltas).now == s.now + total_time(deltas),
        run(s, deltas).robots.len() == s.robots.len(),
        run(s, deltas).tasks.len() == s.tasks.len(),
    decreases deltas.len(),
{
    if deltas.len() > 0 {
        s.lemma_tick_keeps_size(deltas[0]);
        lemma_run_keeps_size(s.tick(deltas[0]), deltas.drop_first());
    }
}

/// Determinism: what a simulation is after a run of ticks depends on
/// nothing but what it was before, as a mathematical state, and on the
/// deltas.  Two simulations that agree as states agree after every tick of
/// the same run, however their queues are laid out in memory.
pub proof fn law_deterministic(a: Simulation, b: Simulation, deltas: Seq<nat>, k: int)
    requires
        a@ == b@,
        0 <= k <= deltas.len(),
    ensures
        run(a@, deltas.take(k)) == run(b@, deltas.take(k)),
{
}

/// Idempotent reset: a second reset changes nothing, and a reset after any
/// run of ticks gives the state in which the epoch began: every robot fresh
/// at its start position, every task fresh at its site, the clock at zero
/// and nothing pending.
pub proof fn law_reset_idempotent(s: State, deltas: Seq<nat>)
    ensures
        s.reset().reset() == s.reset(),
        run(s.reset(), deltas).reset() == s.reset(),
        s.reset().now == 0,
        s.reset().events.len() == 0,
        s.reset().robots.len() == s.robots.len(),
        s.reset().tasks.len() == s.tasks.len(),
        forall|i: int| 0 <= i < s.robots.len() ==> #[trigger] s.reset().robots[i] == fresh_robot(i as nat),
        forall|j: int| 0 <= j < s.tasks.len() ==> #[trigger] s.reset().tasks[j] == fresh_task(j as nat),
{
    lemma_run_keeps_size(s.reset(), deltas);
}

/// Travel time floor: the arrival of a robot at a task is scheduled no
/// sooner than `MIN_TRAVEL_TIME` after now, and exactly then when the robot
/// already stands where the task sits.
pub proof fn law_travel_time_floor(robot: RobotState, task: Task, now: nat)
    requires
        now <= CLOCK_LIMIT,
    ensures
        journey(robot, task, now).timestamp >= now + MIN_TRAVEL_TIME,
        journey(robot, task, now).timestamp == now + travel_time(dist_sq(robot.position, task.position)),
        robot.position == task.position ==> journey(robot, task, now).timestamp == now
            + MIN_TRAVEL_TIME,
{
    lemma_travel_time_bounds(robot.position, task.position);
    lemma_travel_time_bounds(robot.position, robot.position);
}

/// A fresh world is coherent.
pub proof fn lemma_initial_coherent(robots: nat, tasks: nat)
    requires
        robots <= MAX_ROBOTS,
        tasks <= usize::MAX,
    ensures
        coherent(State::initial(robots, tasks)),
{
    let s = State::initial(robots, tasks);
    assert forall|i: int| 0 <= i < s.robots.len() implies (#[trigger] s.robots[i]).id == i by {
        assert(s.robots[i] == fresh_robot(i as nat));
    }
    assert forall|j: int| 0 <= j < s.tasks.len() implies (#[trigger] s.tasks[j]).id == j by {
        assert(s.tasks[j] == fresh_task(j as nat));
    }
    assert forall|i: int| 0 <= i < s.robots.len() implies #[trigger] robot_in_order(s, i) by {
        assert(s.robots[i] == fresh_robot(i as nat));
    }
    assert forall|j: int| 0 <= j < s.tasks.len() implies #[trigger] task_in_order(s, j) by {
        assert(s.tasks[j] == fresh_task(j as nat));
    }
}

/// Executing a pending event keeps a coherent state coherent.
pub proof fn lemma_step_coherent(s: State, e: Event)
    requires
        coherent(s),
        s.events.contains(e),
    ensures
        coherent(s.step(e)),
{
    broadcast use group_multiset_axioms;

    let t = s.step(e);
    let r = e.robot() as int;
    let j = e.task().unwrap() as int;
    assert(event_in_order(s, e));
    assert(robot_in_order(s, r));
    assert(t.events =~= s.events.remove(e));
    assert forall|i: int| 0 <= i < t.robots.len() implies (#[trigger] t.robots[i]).id == i by {
        assert(s.robots[i].id == i);
    }
    assert forall|k: int| 0 <= k < t.tasks.len() implies (#[trigger] t.tasks[k]).id == k by {
        assert(s.tasks[k].id == k);
    }
    assert forall|i: int| 0 <= i < t.robots.len() implies #[trigger] robot_in_order(t, i) by {
        assert(robot_in_order(s, i));
        if i != r && s.robots[i].task_id is Some {
            let k = s.robots[i].task_id.unwrap() as int;
            assert(task_in_order(s, k));
            let w = choose|w: Event| #[trigger] s.events.contains(w) && w.robot() == i;
            assert(t.events.contains(w));
        }
    }
    assert forall|k: int| 0 <= k < t.tasks.len() implies #[trigger] task_in_order(t, k) by {
        assert(task_in_order(s, k));
    }
    assert forall|x: Event| #[trigger] t.events.contains(x) implies event_in_order(t, x) by {
        assert(s.events.contains(x));
        assert(event_in_order(s, x));
    }
    assert forall|a: Event, b: Event|
        #![trigger t.events.contains(a), t.events.contains(b)]
        t.events.contains(a) && t.events.contains(b) && a.robot() == b.robot() implies a == b by {
        assert(s.events.contains(a) && s.events.contains(b));
    }
}

/// Draining the due events keeps a coherent state coherent.
pub proof fn lemma_drain_coherent(s: State)
    requires
        coherent(s),
    ensures
        coherent(s.drain()),
    decreases s.events.len(),
{
    broadcast use group_multiset_axioms;

    match next_due(s.events, s.now) {
        Some(e) => {
            lemma_earliest_exists(s.events);
            assert(Multiset::singleton(e).subset_of(s.events));
            lemma_step_coherent(s, e);
            lemma_drain_coherent(s.step(e));
        },
        None => {},
    }
}

/// Offering a robot a task keeps a coherent state coherent.
pub proof fn lemma_offer_coherent(s: State, r: int)
    requires
        coherent(s),
        0 <= r < s.robots.len(),
    ensures
        coherent(s.offer(r)),
{
    broadcast use group_multiset_axioms;

    let t = s.offer(r);
    let robot = s.robots[r];
    if robot.idle() && nearest(s.tasks, robot.position) is Some {
        let j = nearest(s.tasks, robot.position).unwrap();
        assert(is_nearest(s.tasks, robot.position, j));
        let new = journey(robot, s.tasks[j], s.now);
        assert(t.events =~= s.events.insert(new));
        assert(s.robots[r].id == r);
        assert(s.tasks[j].id == j);
        assert(!s.events.contains(new)) by {
            if s.events.contains(new) {
                assert(event_in_order(s, new));
            }
        }
        assert forall|i: int| 0 <= i < t.robots.len() implies (#[trigger] t.robots[i]).id == i by {
            assert(s.robots[i].id == i);
        }
        assert forall|k: int| 0 <= k < t.tasks.len() implies (#[trigger] t.tasks[k]).id == k by {
            assert(s.tasks[k].id == k);
        }
        assert forall|i: int| 0 <= i < t.robots.len() implies #[trigger] robot_in_order(t, i) by {
            assert(robot_in_order(s, i));
            if i == r {
                assert(t.events.contains(new) && new.robot() == r);
            } else if s.robots[i].task_id is Some {
                let w = choose|w: Event| #[trigger] s.events.contains(w) && w.robot() == i;
                assert(t.events.contains(w));
            }
        }
        assert forall|k: int| 0 <= k < t.tasks.len() implies #[trigger] task_in_order(t, k) by {
            assert(task_in_order(s, k));
        }
        assert forall|x: Event| #[trigger] t.events.contains(x) implies event_in_order(t, x) by {
            if x != new {
                assert(s.events.contains(x));
                assert(event_in_order(s, x));
            }
        }
        assert forall|a: Event, b: Event|
            #![trigger t.events.contains(a), t.events.contains(b)]
            t.events.contains(a) && t.events.contains(b) && a.robot() == b.robot() implies a == b by {
            if a != new {
                assert(s.events.contains(a));
                assert(event_in_order(s, a));
            }
            if b != new {
                assert(s.events.contains(b));
                assert(event_in_order(s, b));
            }
        }
    }
}

/// An allocation pass keeps a coherent state coherent.
pub proof fn lemma_allocate_coherent(s: State, r: int)
    requires
        coherent(s),
        0 <= r,
    ensures
        coherent(s.allocate_from(r)),
    decreases s.robots.len() - r,
{
    if r < s.robots.len() {
        lemma_offer_coherent(s, r);
        lemma_allocate_coherent(s.offer(r), r + 1);
    }
}

/// Moving the clock forward keeps a coherent state coherent.
pub proof fn lemma_later_coherent(s: State, delta: nat)
    requires
        coherent(s),
    ensures
        coherent(s.later(delta)),
{
    let t = s.later(delta);
    assert forall|i: int| 0 <= i < t.robots.len() implies #[trigger] robot_in_order(t, i) by {
        assert(robot_in_order(s, i));
        if s.robots[i].task_id is Some {
            let w = choose|w: Event| #[trigger] s.events.contains(w) && w.robot() == i;
            assert(t.events.contains(w));
        }
    }
    assert forall|j: int| 0 <= j < t.tasks.len() implies #[trigger] task_in_order(t, j) by {
        assert(task_in_order(s, j));
    }
    assert forall|e: Event| #[trigger] t.events.contains(e) implies event_in_order(t, e) by {
        assert(event_in_order(s, e));
    }
}

/// A tick keeps a coherent state coherent.
pub proof fn lemma_tick_coherent(s: State, delta: nat)
    requires
        coherent(s),
    ensures
        coherent(s.tick(delta)),
{
    let t = s.later(delta);
    lemma_later_coherent(s, delta);
    lemma_drain_coherent(t);
    lemma_allocate_coherent(t.drain(), 0);
}

/// Any run of ticks keeps a coherent state coherent.
pub proof fn lemma_run_coherent(s: State, deltas: Seq<nat>)
    requires
        coherent(s),
    ensures
        coherent(run(s, deltas)),
    decreases deltas.len(),
{
    if deltas.len() > 0 {
        lemma_tick_coherent(s, deltas[0]);
        lemma_run_coherent(s.tick(deltas[0]), deltas.drop_first());
    }
}

/// At most one assignment: in every state that a fresh world reaches by
/// ticks, no two tasks are taken by the same robot, and a robot serves a
/// task only if that task names the robot.
pub proof fn law_at_most_one_assignment(robots: nat, tasks: nat, deltas: Seq<nat>)
    requires
        robots <= MAX_ROBOTS,
        tasks <= usize::MAX,
    ensures
        ({
            let s = run(State::initial(robots, tasks), deltas);
            &&& forall|j: int, k: int|
                #![trigger s.tasks[j], s.tasks[k]]
                0 <= j < s.tasks.len() && 0 <= k < s.tasks.len() && s.tasks[j].assigned_to is Some
                    && s.tasks[j].assigned_to == s.tasks[k].assigned_to ==> j == k
            &&& forall|i: int|
                0 <= i < s.robots.len() ==> ((#[trigger] s.robots[i]).task_id matches Some(t) ==> t
                    < s.tasks.len() && s.tasks[t as int].assigned_to == Some(s.robots[i].id))
        }),
{
    lemma_initial_coherent(robots, tasks);
    lemma_run_coherent(State::initial(robots, tasks), deltas);
    lemma_coherent_assignments(run(State::initial(robots, tasks), deltas));
}

/// In a coherent state no two tasks are taken by the same robot, and a robot
/// serves a task only if that task names the robot.
pub proof fn lemma_coherent_assignments(s: State)
    requires
        coherent(s),
    ensures
        forall|j: int, k: int|
            #![trigger s.tasks[j], s.tasks[k]]
            0 <= j < s.tasks.len() && 0 <= k < s.tasks.len() && s.tasks[j].assigned_to is Some
                && s.tasks[j].assigned_to == s.tasks[k].assigned_to ==> j == k,
        forall|i: int|
            0 <= i < s.robots.len() ==> ((#[trigger] s.robots[i]).task_id matches Some(t) ==> t
                < s.tasks.len() && s.tasks[t as int].assigned_to == Some(s.robots[i].id)),
{
    assert forall|j: int, k: int|
        #![trigger s.tasks[j], s.tasks[k]]
        0 <= j < s.tasks.len() && 0 <= k < s.tasks.len() && s.tasks[j].assigned_to is Some
            && s.tasks[j].assigned_to == s.tasks[k].assigned_to implies j == k by {
        assert(task_in_order(s, j));
        assert(task_in_order(s, k));
    }
    assert forall|i: int| 0 <= i < s.robots.len() implies ((#[trigger] s.robots[i]).task_id matches Some(
        t,
    ) ==> t < s.tasks.len() && s.tasks[t as int].assigned_to == Some(s.robots[i].id)) by {
        assert(robot_in_order(s, i));
    }
}

/// In a coherent state a robot is idle exactly when no pending event names
/// it, and a completed task is taken by no robot.
pub proof fn lemma_coherent_idle_and_completed(s: State)
    requires
        coherent(s),
    ensures
        forall|i: int|
            0 <= i < s.robots.len() ==> ((#[trigger] s.robots[i]).idle() <==> forall|e: Event|
                #[trigger] s.events.contains(e) ==> e.robot() != i),
        forall|j: int|
            0 <= j < s.tasks.len() && (#[trigger] s.tasks[j]).completed ==> s.tasks[j].assigned_to is None,
{
    assert forall|i: int| 0 <= i < s.robots.len() implies ((#[trigger] s.robots[i]).idle() <==> forall|
        e: Event,
    | #[trigger] s.events.contains(e) ==> e.robot() != i) by {
        assert(robot_in_order(s, i));
        if s.robots[i].idle() {
            assert forall|e: Event| #[trigger] s.events.contains(e) implies e.robot() != i by {
                assert(event_in_order(s, e));
            }
        }
    }
    assert forall|j: int| 0 <= j < s.tasks.len() && (#[trigger] s.tasks[j]).completed implies s.tasks[j].assigned_to is None by {
        assert(task_in_order(s, j));
        if s.tasks[j].assigned_to is Some {
            assert(robot_in_order(s, s.tasks[j].assigned_to.unwrap() as int));
        }
    }
}

/// Whether `t` can come after `s` within one epoch: the clock has not gone
/// back, the same robots and tasks are there under the same ids, no task
/// has moved, no completed task is open again, and every path has only
/// grown at its end.
pub open spec fn continues(t: State, s: State) -> bool {
    &&& t.now >= s.now
    &&& t.robots.len() == s.robots.len()
    &&& t.tasks.len() == s.tasks.len()
    &&& forall|i: int|
        0 <= i < s.robots.len() ==> (#[trigger] t.robots[i]).id == s.robots[i].id
            && s.robots[i].path.is_prefix_of(t.robots[i].path)
    &&& forall|j: int|
        0 <= j < s.tasks.len() ==> (#[trigger] t.tasks[j]).id == s.tasks[j].id && t.tasks[j].position
            == s.tasks[j].position && (s.tasks[j].completed ==> t.tasks[j].completed)
}

/// What continues a continuation of `a` continues `a`.
proof fn lemma_continues_chain(a: State, b: State, c: State)
    requires
        continues(b, a),
        continues(c, b),
    ensures
        continues(c, a),
{
    assert forall|i: int| 0 <= i < a.robots.len() implies (#[trigger] c.robots[i]).id == a.robots[i].id
        && a.robots[i].path.is_prefix_of(c.robots[i].path) by {
        assert(b.robots[i].id == a.robots[i].id);
        assert(a.robots[i].path.is_prefix_of(b.robots[i].path));
        assert(b.robots[i].path.is_prefix_of(c.robots[i].path));
    }
    assert forall|j: int| 0 <= j < a.tasks.len() implies (#[trigger] c.tasks[j]).id == a.tasks[j].id
        && c.tasks[j].position == a.tasks[j].position && (a.tasks[j].completed
        ==> c.tasks[j].completed) by {
        assert(b.tasks[j].id == a.tasks[j].id);
    }
}

/// Executing the due events undoes nothing.
proof fn lemma_drain_continues(s: State)
    ensures
        continues(s.drain(), s),
    decreases s.events.len(),
{
    broadcast use group_multiset_axioms;

    match next_due(s.events, s.now) {
        Some(e) => {
            lemma_earliest_exists(s.events);
            assert(Multiset::singleton(e).subset_of(s.events));
            let t = s.step(e);
            assert(continues(t, s));
            lemma_drain_continues(t);
            lemma_continues_chain(s, t, t.drain());
        },
        None => {},
    }
}

/// An allocation pass undoes nothing.
proof fn lemma_allocate_continues(s: State, r: int)
    ensures
        continues(s.allocate_from(r), s),
    decreases s.robots.len() - r,
{
    if 0 <= r < s.robots.len() {
        let t = s.offer(r);
        let robot = s.robots[r];
        if robot.idle() && nearest(s.tasks, robot.position) is Some {
            let j = nearest(s.tasks, robot.position).unwrap();
            assert(is_nearest(s.tasks, robot.position, j));
        }
        assert(continues(t, s));
        lemma_allocate_continues(t, r + 1);
        lemma_continues_chain(s, t, t.allocate_from(r + 1));
    }
}

/// Within an epoch nothing is undone: after any run of ticks the clock has
/// not gone back, every robot and task is still there under its id, every
/// task is where it was, every task that was completed still is, and every
/// path begins with the path that it was.
pub proof fn law_epoch_only_moves_forward(s: State, deltas: Seq<nat>)
    ensures
        continues(run(s, deltas), s),
    decreases deltas.len(),
{
    if deltas.len() > 0 {
        let a = s.later(deltas[0]);
        let b = a.drain();
        let c = b.allocate();
        assert(continues(a, s));
        lemma_drain_continues(a);
        lemma_allocate_continues(b, 0);
        lemma_continues_chain(s, a, b);
        lemma_continues_chain(s, b, c);
        law_epoch_only_moves_forward(c, deltas.drop_first());
        lemma_continues_chain(s, c, run(c, deltas.drop_first()));
    }
}

} // verus!
