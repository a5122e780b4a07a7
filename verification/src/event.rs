//! Scheduled events and the order in which they fall due.

use vstd::prelude::*;
use crate::geometry::Point;

verus! {

/// What an event does when it is executed.
#[derive(Clone, Copy, Debug, PartialEq, Eq)]
pub enum EventType {
    /// Moves one robot to a target position and optionally completes a task.
    MoveRobot {
        /// The robot to move.
        robot_id: usize,
        /// Where the robot arrives.
        target: Point,
        /// The task that is finished on arrival, if the move serves one.
        task_id: Option<usize>,
    },
}

/// An action that becomes due at a given time on the simulation clock.
#[derive(Clone, Copy, Debug, PartialEq, Eq)]
pub struct Event {
    /// Clock time, in milliseconds, at which the event becomes due.
    pub timestamp: u64,
    /// What happens then.
    pub event_type: EventType,
}

/// A task id as a number for ordering: no task comes before every task.
pub open spec fn task_rank(task_id: Option<usize>) -> int {
    match task_id {
        None => -1,
        Some(t) => t as int,
    }
}

/// Whether `a` comes no later than `b` when positions are ordered by x, then
/// y, then z.
pub open spec fn point_le(a: Point, b: Point) -> bool {
    a.x < b.x || (a.x == b.x && (a.y < b.y || (a.y == b.y && a.z <= b.z)))
}

impl EventType {
    /// Whether `self` comes no later than `other` among payloads: by robot,
    /// then by task, then by target.
    pub open spec fn precedes(self, other: EventType) -> bool {
        match (self, other) {
            (
                EventType::MoveRobot { robot_id: ra, target: pa, task_id: ta },
                EventType::MoveRobot { robot_id: rb, target: pb, task_id: tb },
            ) => ra < rb || (ra == rb && (task_rank(ta) < task_rank(tb) || (ta == tb && point_le(
                pa,
                pb,
            )))),
        }
    }
}

impl Event {
    /// The order in which events are executed: `self` is executed no later
    /// than `other`.
    ///
    /// The earlier timestamp always goes first.  Events with equal timestamps
    /// are ordered by their payload, so that the order is total and two
    /// events that each precede the other are one and the same.
    pub open spec fn precedes(self, other: Event) -> bool {
        self.timestamp < other.timestamp || (self.timestamp == other.timestamp
            && self.event_type.precedes(other.event_type))
    }

    /// The robot that the event moves.
    pub open spec fn robot(self) -> usize {
        match self.event_type {
            EventType::MoveRobot { robot_id, .. } => robot_id,
        }
    }

    /// The task that the event completes, if any.
    pub open spec fn task(self) -> Option<usize> {
        match self.event_type {
            EventType::MoveRobot { task_id, .. } => task_id,
        }
    }

    /// Whether the event is due when the clock shows `now`.
    pub open spec fn due(self, now: nat) -> bool {
        self.timestamp <= now
    }

    /// An event that moves `robot_id` to `target` at `timestamp` and completes
    /// `task_id`, if any, on arrival.
    pub fn move_robot(timestamp: u64, robot_id: usize, target: Point, task_id: Option<usize>) -> (e:
        Event)
        ensures
            e == (Event { timestamp, event_type: EventType::MoveRobot { robot_id, target, task_id } }),
    {
        Event { timestamp, event_type: EventType::MoveRobot { robot_id, target, task_id } }
    }

    /// Decides whether `self` is executed no later than `other`.
    pub fn is_before_or_same(&self, other: &Event) -> (b: bool)
        ensures
            b == self.precedes(*other),
    {
        if self.timestamp != other.timestamp {
            return self.timestamp < other.timestamp;
        }
        match (self.event_type, other.event_type) {
            (
                EventType::MoveRobot { robot_id: ra, target: pa, task_id: ta },
                EventType::MoveRobot { robot_id: rb, target: pb, task_id: tb },
            ) => {
                if ra != rb {
                    return ra < rb;
                }
                match (ta, tb) {
                    (None, Some(_)) => true,
                    (Some(_), None) => false,
                    (Some(a), Some(b)) if a != b => a < b,
                    _ => {
                        if pa.x != pb.x {
                            pa.x < pb.x
                        } else if pa.y != pb.y {
                            pa.y < pb.y
                        } else {
                            pa.z <= pb.z
                        }
                    },
                }
            },
        }
    }
}

/// Any two events are ordered one way or the other.
pub proof fn lemma_precedes_total(a: Event, b: Event)
    ensures
        a.precedes(b) || b.precedes(a),
{
}

/// The order of events is transitive.
pub proof fn lemma_precedes_transitive(a: Event, b: Event, c: Event)
    requires
        a.precedes(b),
        b.precedes(c),
    ensures
        a.precedes(c),
{
}

/// Two events that each precede the other are the same event.
pub proof fn lemma_precedes_antisymmetric(a: Event, b: Event)
    requires
        a.precedes(b),
        b.precedes(a),
    ensures
        a == b,
{
}

/// An earlier timestamp always goes first.
pub proof fn lemma_precedes_by_time(a: Event, b: Event)
    ensures
        a.timestamp < b.timestamp ==> a.precedes(b) && !b.precedes(a),
        a.precedes(b) ==> a.timestamp <= b.timestamp,
{
}

} // verus!
