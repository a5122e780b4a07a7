//! Progress: with at least one robot, ticks of positive length complete
//! every task in the end.

use vstd::prelude::*;
use vstd::multiset::*;
use crate::event::Event;
use crate::geometry::{dist_sq, Point};
use crate::laws::{
    coherent, event_in_order, lemma_drain_coherent, lemma_initial_coherent, lemma_later_coherent,
    lemma_offer_coherent, lemma_step_coherent, robot_in_order, run, task_in_order, total_time,
};
use crate::model::Task;
use crate::placement::MAX_ROBOTS;
use crate::queue::{lemma_earliest_exists, lemma_none_due, next_due};
use crate::rules::{
    fresh_task, is_nearest, journey, lemma_nearest_is, lemma_travel_time_bounds, nearest, State,
    CLOCK_LIMIT, MAX_TRAVEL_TIME,
};

verus! {

/// The pending arrival of robot `r`.  Meaningful while the robot is busy.
pub open spec fn journey_of(events: Multiset<Event>, r: int) -> Event {
    choose|e: Event| #[trigger] events.contains(e) && e.robot() == r
}

/// The time that robot `r` still needs to arrive.
pub open spec fn wait(s: State, r: int) -> nat {
    let at = journey_of(s.events, r).timestamp as nat;
    if at > s.now {
        (at - s.now) as nat
    } else {
        0
    }
}

/// A bound on the ticks that task `j` can still take up: nothing once it is
/// completed, the wait of its robot and one more while it is taken, and more
/// than any journey while it is free.
pub open spec fn outstanding(s: State, j: int) -> nat {
    let task = s.tasks[j];
    if task.completed {
        0
    } else {
        match task.assigned_to {
            Some(r) => 1 + wait(s, r as int),
            None => MAX_TRAVEL_TIME as nat + 1,
        }
    }
}

/// What is outstanding of the first `k` tasks together.
pub open spec fn remaining(s: State, k: int) -> nat
    decreases k,
{
    if k <= 0 {
        0
    } else {
        remaining(s, k - 1) + outstanding(s, k - 1)
    }
}

/// Every task is completed.
pub open spec fn all_completed(s: State) -> bool {
    forall|j: int| 0 <= j < s.tasks.len() ==> (#[trigger] s.tasks[j]).completed
}

/// None of the first `r` robots is idle while a task is eligible.
pub open spec fn saturated(s: State, r: int) -> bool {
    forall|i: int, j: int|
        0 <= i < r && i < s.robots.len() && 0 <= j < s.tasks.len() && (#[trigger] s.robots[i]).idle()
            ==> !(#[trigger] s.tasks[j]).eligible()
}

/// No pending event is due.
pub open spec fn none_due(s: State) -> bool {
    forall|e: Event| #[trigger] s.events.contains(e) ==> e.timestamp > s.now
}

/// The state between two ticks: coherent, with no idle robot while a task is
/// eligible, and with every pending event in the future.
pub open spec fn settled(s: State) -> bool {
    &&& coherent(s)
    &&& saturated(s, s.robots.len() as int)
    &&& none_due(s)
}

/// In a coherent state the pending event of a robot is its journey.
proof fn lemma_journey_of(s: State, e: Event)
    requires
        coherent(s),
        s.events.contains(e),
    ensures
        journey_of(s.events, e.robot() as int) == e,
{
    let w = journey_of(s.events, e.robot() as int);
    assert(s.events.contains(w) && w.robot() == e.robot());
}

/// In a coherent state a taken task is open, and its robot has a pending
/// journey to it.
proof fn lemma_busy_journey(s: State, j: int) -> (w: Event)
    requires
        coherent(s),
        0 <= j < s.tasks.len(),
        s.tasks[j].assigned_to is Some,
    ensures
        s.events.contains(w),
        w.robot() == s.tasks[j].assigned_to.unwrap(),
        w.task() == Some(j as usize),
        journey_of(s.events, w.robot() as int) == w,
        !s.tasks[j].completed,
{
    let r = s.tasks[j].assigned_to.unwrap() as int;
    assert(task_in_order(s, j));
    assert(robot_in_order(s, r));
    let w = choose|w: Event| #[trigger] s.events.contains(w) && w.robot() == r;
    assert(event_in_order(s, w));
    lemma_journey_of(s, w);
    w
}

/// Where no task has more outstanding, the tasks together have no more.
proof fn lemma_remaining_le(s: State, t: State, k: int)
    requires
        forall|j: int| 0 <= j < k ==> outstanding(t, j) <= outstanding(s, j),
    ensures
        remaining(t, k) <= remaining(s, k),
    decreases k,
{
    if k > 0 {
        lemma_remaining_le(s, t, k - 1);
    }
}

/// Where no task has more outstanding and one has less, the tasks together
/// have less.
proof fn lemma_remaining_lt(s: State, t: State, k: int, at: int)
    requires
        forall|j: int| 0 <= j < k ==> outstanding(t, j) <= outstanding(s, j),
        0 <= at < k,
        outstanding(t, at) < outstanding(s, at),
    ensures
        remaining(t, k) < remaining(s, k),
    decreases k,
{
    if at == k - 1 {
        lemma_remaining_le(s, t, k - 1);
    } else {
        lemma_remaining_lt(s, t, k - 1, at);
    }
}

/// Nothing is outstanding exactly when every task is completed.
proof fn lemma_remaining_zero(s: State, k: int)
    requires
        coherent(s),
        0 <= k <= s.tasks.len(),
    ensures
        remaining(s, k) == 0 <==> forall|j: int| 0 <= j < k ==> (#[trigger] s.tasks[j]).completed,
    decreases k,
{
    if k > 0 {
        lemma_remaining_zero(s, k - 1);
        if remaining(s, k) == 0 {
            assert forall|j: int| 0 <= j < k implies (#[trigger] s.tasks[j]).completed by {
                if j == k - 1 {
                    assert(outstanding(s, k - 1) == 0);
                }
            }
        } else if forall|j: int| 0 <= j < k ==> (#[trigger] s.tasks[j]).completed {
            assert(s.tasks[k - 1].completed);
        }
    }
}

/// Moving the clock forward makes nothing more outstanding, and less for a
/// taken task whose robot is still on its way.
proof fn lemma_later_outstanding(s: State, delta: nat, j: int)
    requires
        coherent(s),
        0 <= j < s.tasks.len(),
    ensures
        outstanding(s.later(delta), j) <= outstanding(s, j),
        none_due(s) && delta >= 1 && s.tasks[j].assigned_to is Some ==> outstanding(s.later(delta), j)
            < outstanding(s, j),
{
    if s.tasks[j].assigned_to is Some {
        let w = lemma_busy_journey(s, j);
    }
}

/// Executing a pending event makes nothing more outstanding.
proof fn lemma_step_outstanding(s: State, e: Event, j: int)
    requires
        coherent(s),
        s.events.contains(e),
        0 <= j < s.tasks.len(),
    ensures
        outstanding(s.step(e), j) <= outstanding(s, j),
{
    broadcast use group_multiset_axioms;

    let t = s.step(e);
    lemma_step_coherent(s, e);
    assert(event_in_order(s, e));
    assert(robot_in_order(s, e.robot() as int));
    if e.task() != Some(j as usize) && s.tasks[j].assigned_to is Some {
        let w = lemma_busy_journey(s, j);
        assert(t.events.contains(w));
        lemma_journey_of(t, w);
    }
}

/// Offering a robot a task makes nothing more outstanding.
proof fn lemma_offer_outstanding(s: State, r: int, k: int)
    requires
        coherent(s),
        0 <= r < s.robots.len(),
        0 <= k < s.tasks.len(),
        s.now <= CLOCK_LIMIT,
    ensures
        outstanding(s.offer(r), k) <= outstanding(s, k),
{
    broadcast use group_multiset_axioms;

    let t = s.offer(r);
    let robot = s.robots[r];
    lemma_offer_coherent(s, r);
    if robot.idle() && nearest(s.tasks, robot.position) is Some {
        let j = nearest(s.tasks, robot.position).unwrap();
        assert(is_nearest(s.tasks, robot.position, j));
        let new = journey(robot, s.tasks[j], s.now);
        assert(s.robots[r].id == r);
        if k == j {
            assert(t.events.contains(new));
            lemma_journey_of(t, new);
            lemma_travel_time_bounds(robot.position, s.tasks[j].position);
        } else if s.tasks[k].assigned_to is Some {
            let w = lemma_busy_journey(s, k);
            assert(t.events.contains(w));
            lemma_journey_of(t, w);
        }
    }
}

/// While a task is eligible, some task is the nearest.
pub proof fn lemma_nearest_exists(tasks: Seq<Task>, from: Point, k: int) -> (j: int)
    requires
        0 <= k <= tasks.len(),
        exists|i: int| 0 <= i < k && (#[trigger] tasks[i]).eligible(),
    ensures
        is_nearest(tasks.take(k), from, j),
        k == tasks.len() ==> nearest(tasks, from) == Some(j),
    decreases k,
{
    let last = k - 1;
    let head = tasks.take(last);
    let all = tasks.take(k);
    let j = if exists|i: int| 0 <= i < last && (#[trigger] tasks[i]).eligible() {
        let best = lemma_nearest_exists(tasks, from, last);
        assert(head[best] == all[best]);
        if tasks[last].eligible() && dist_sq(from, tasks[last].position) < dist_sq(
            from,
            tasks[best].position,
        ) {
            assert forall|i: int| 0 <= i < last && (#[trigger] all[i]).eligible() implies dist_sq(
                from,
                all[last].position,
            ) < dist_sq(from, all[i].position) by {
                assert(head[i].eligible());
            }
            last
        } else {
            assert forall|i: int| 0 <= i < all.len() && (#[trigger] all[i]).eligible() implies dist_sq(
                from,
                all[best].position,
            ) <= dist_sq(from, all[i].position) by {
                if i < last {
                    assert(head[i].eligible());
                }
            }
            assert forall|i: int| 0 <= i < best && (#[trigger] all[i]).eligible() implies dist_sq(
                from,
                all[best].position,
            ) < dist_sq(from, all[i].position) by {
                assert(head[i].eligible());
            }
            best
        }
    } else {
        let i = choose|i: int| 0 <= i < k && (#[trigger] tasks[i]).eligible();
        assert(i == last);
        assert forall|i: int| 0 <= i < last implies !(#[trigger] all[i]).eligible() by {
            assert(all[i] == tasks[i]);
        }
        last
    };
    if k == tasks.len() {
        assert(all =~= tasks);
        lemma_nearest_is(tasks, from, j);
    }
    j
}

/// Once robot `r` has been offered a task, it is not idle while a task is
/// eligible, and neither are the robots before it.
proof fn lemma_offer_saturates(s: State, r: int)
    requires
        coherent(s),
        0 <= r < s.robots.len(),
        saturated(s, r),
    ensures
        saturated(s.offer(r), r + 1),
{
    let t = s.offer(r);
    let robot = s.robots[r];
    assert forall|i: int, j: int|
        0 <= i < r + 1 && i < t.robots.len() && 0 <= j < t.tasks.len() && (#[trigger] t.robots[i]).idle()
        implies !(#[trigger] t.tasks[j]).eligible() by {
        if t.tasks[j].eligible() {
            assert(s.tasks[j].eligible());
            if i < r {
                assert(s.robots[i].idle());
            } else {
                let best = lemma_nearest_exists(s.tasks, robot.position, s.tasks.len() as int);
            }
        }
    }
}

/// An allocation pass from robot `r` on ends in a settled state and makes
/// nothing more outstanding.
proof fn lemma_allocate_settles(s: State, r: int)
    requires
        coherent(s),
        0 <= r <= s.robots.len(),
        saturated(s, r),
        none_due(s),
        s.now <= CLOCK_LIMIT,
    ensures
        settled(s.allocate_from(r)),
        remaining(s.allocate_from(r), s.tasks.len() as int) <= remaining(s, s.tasks.len() as int),
        s.allocate_from(r).tasks.len() == s.tasks.len(),
        s.allocate_from(r).robots.len() == s.robots.len(),
        s.allocate_from(r).now == s.now,
    decreases s.robots.len() - r,
{
    broadcast use group_multiset_axioms;

    if r < s.robots.len() {
        let t = s.offer(r);
        lemma_offer_coherent(s, r);
        lemma_offer_saturates(s, r);
        assert forall|e: Event| #[trigger] t.events.contains(e) implies e.timestamp > t.now by {
            let robot = s.robots[r];
            if robot.idle() && nearest(s.tasks, robot.position) is Some {
                let j = nearest(s.tasks, robot.position).unwrap();
                lemma_travel_time_bounds(robot.position, s.tasks[j].position);
                if e != journey(robot, s.tasks[j], s.now) {
                    assert(s.events.contains(e));
                }
            } else {
                assert(s.events.contains(e));
            }
        }
        assert forall|k: int| 0 <= k < s.tasks.len() implies outstanding(t, k) <= outstanding(s, k) by {
            lemma_offer_outstanding(s, r, k);
        }
        lemma_remaining_le(s, t, s.tasks.len() as int);
        lemma_allocate_settles(t, r + 1);
    }
}

/// Executing the due events makes nothing more outstanding.
proof fn lemma_drain_remaining(s: State)
    requires
        coherent(s),
    ensures
        remaining(s.drain(), s.tasks.len() as int) <= remaining(s, s.tasks.len() as int),
    decreases s.events.len(),
{
    broadcast use group_multiset_axioms;

    match next_due(s.events, s.now) {
        Some(e) => {
            lemma_earliest_exists(s.events);
            assert(Multiset::singleton(e).subset_of(s.events));
            let t = s.step(e);
            lemma_step_coherent(s, e);
            assert forall|k: int| 0 <= k < s.tasks.len() implies outstanding(t, k) <= outstanding(s, k) by {
                lemma_step_outstanding(s, e, k);
            }
            lemma_remaining_le(s, t, s.tasks.len() as int);
            lemma_drain_remaining(t);
        },
        None => {},
    }
}

/// A tick from a coherent state ends in a settled state and makes nothing
/// more outstanding than was.
pub proof fn lemma_tick_settles(s: State, delta: nat)
    requires
        coherent(s),
        s.now + delta <= CLOCK_LIMIT,
    ensures
        settled(s.tick(delta)),
        remaining(s.tick(delta), s.tasks.len() as int) <= remaining(s, s.tasks.len() as int),
{
    let a = s.later(delta);
    lemma_later_coherent(s, delta);
    assert forall|k: int| 0 <= k < s.tasks.len() implies outstanding(a, k) <= outstanding(s, k) by {
        lemma_later_outstanding(s, delta, k);
    }
    lemma_remaining_le(s, a, s.tasks.len() as int);
    let b = a.drain();
    lemma_drain_coherent(a);
    lemma_drain_remaining(a);
    a.lemma_drain_settles();
    lemma_none_due(b.events, b.now);
    lemma_allocate_settles(b, 0);
}

/// A tick of positive length from a settled state with a robot makes less
/// outstanding than was, unless every task is completed.
pub proof fn lemma_tick_progress(s: State, delta: nat)
    requires
        settled(s),
        s.robots.len() >= 1,
        delta >= 1,
        s.now + delta <= CLOCK_LIMIT,
        !all_completed(s),
    ensures
        remaining(s.tick(delta), s.tasks.len() as int) < remaining(s, s.tasks.len() as int),
{
    let open = choose|j: int| 0 <= j < s.tasks.len() && !(#[trigger] s.tasks[j]).completed;
    let at = if s.tasks[open].assigned_to is Some {
        open
    } else {
        assert(s.tasks[open].eligible());
        assert(!s.robots[0].idle());
        assert(robot_in_order(s, 0));
        s.robots[0].task_id.unwrap() as int
    };
    let a = s.later(delta);
    lemma_later_coherent(s, delta);
    assert forall|k: int| 0 <= k < s.tasks.len() implies outstanding(a, k) <= outstanding(s, k) by {
        lemma_later_outstanding(s, delta, k);
    }
    lemma_later_outstanding(s, delta, at);
    lemma_remaining_lt(s, a, s.tasks.len() as int, at);
    let b = a.drain();
    lemma_drain_coherent(a);
    lemma_drain_remaining(a);
    a.lemma_drain_settles();
    lemma_none_due(b.events, b.now);
    lemma_allocate_settles(b, 0);
}

/// From a settled state with a robot, a run of ticks of positive length
/// completes every task, if it has as many ticks as are outstanding.
pub proof fn lemma_run_completes(s: State, deltas: Seq<nat>)
    requires
        settled(s),
        s.robots.len() >= 1,
        forall|i: int| 0 <= i < deltas.len() ==> deltas[i] >= 1,
        s.now + total_time(deltas) <= CLOCK_LIMIT,
        deltas.len() >= remaining(s, s.tasks.len() as int),
    ensures
        all_completed(run(s, deltas)),
    decreases deltas.len(),
{
    lemma_remaining_zero(s, s.tasks.len() as int);
    if deltas.len() > 0 {
        let t = s.tick(deltas[0]);
        let rest = deltas.drop_first();
        assert forall|i: int| 0 <= i < rest.len() implies rest[i] >= 1 by {
            assert(rest[i] == deltas[i + 1]);
        }
        lemma_tick_settles(s, deltas[0]);
        s.lemma_tick_keeps_size(deltas[0]);
        if !all_completed(s) {
            lemma_tick_progress(s, deltas[0]);
        }
        lemma_run_completes(t, rest);
    }
}

/// While every task is fresh, each has `MAX_TRAVEL_TIME + 1` outstanding.
proof fn lemma_initial_remaining(s: State, k: int)
    requires
        0 <= k <= s.tasks.len(),
        forall|j: int| 0 <= j < s.tasks.len() ==> #[trigger] s.tasks[j] == fresh_task(j as nat),
    ensures
        remaining(s, k) == k * (MAX_TRAVEL_TIME + 1),
    decreases k,
{
    if k > 0 {
        lemma_initial_remaining(s, k - 1);
        assert(s.tasks[k - 1] == fresh_task((k - 1) as nat));
        assert(k * (MAX_TRAVEL_TIME + 1) == (k - 1) * (MAX_TRAVEL_TIME + 1) + (MAX_TRAVEL_TIME + 1))
            by (nonlinear_arith);
    }
}

/// Progress: in a fresh world with at least one robot, ticks of positive
/// length complete every task in the end.  More ticks than
/// `MAX_TRAVEL_TIME + 1` for each task are enough, whatever their lengths,
/// as long as the clock stays within `CLOCK_LIMIT`.
pub proof fn law_progress(robots: nat, tasks: nat, deltas: Seq<nat>)
    requires
        1 <= robots <= MAX_ROBOTS,
        tasks <= usize::MAX,
        forall|i: int| 0 <= i < deltas.len() ==> deltas[i] >= 1,
        total_time(deltas) <= CLOCK_LIMIT,
        deltas.len() > tasks * (MAX_TRAVEL_TIME + 1),
    ensures
        all_completed(run(State::initial(robots, tasks), deltas)),
{
    let s = State::initial(robots, tasks);
    lemma_initial_coherent(robots, tasks);
    lemma_initial_remaining(s, tasks as int);
    let rest = deltas.drop_first();
    assert forall|i: int| 0 <= i < rest.len() implies rest[i] >= 1 by {
        assert(rest[i] == deltas[i + 1]);
    }
    lemma_tick_settles(s, deltas[0]);
    s.lemma_tick_keeps_size(deltas[0]);
    lemma_run_completes(s.tick(deltas[0]), rest);
}

} // verus!
