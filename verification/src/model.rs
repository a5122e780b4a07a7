//! The records of the entity registry: robots and tasks.

use vstd::prelude::*;
use crate::geometry::Point;

verus! {

/// Number of robots in the default world.
pub const NUM_ROBOTS: usize = 5;

/// Number of tasks in the default world.
pub const NUM_TASKS: usize = 12;

/// Which task, if any, a robot is currently serving.
#[derive(Clone, Copy, Debug, PartialEq, Eq)]
pub struct RobotAssignment {
    /// The assigned task id, or `None` when the robot is idle.
    pub task_id: Option<usize>,
}

/// The positions a robot has visited, oldest first.
#[derive(Clone, Debug, PartialEq, Eq)]
pub struct RobotPath {
    /// The waypoints, in the order in which the robot reached them.
    pub points: Vec<Point>,
}

/// A robot that travels from task to task.
#[derive(Clone, Debug, PartialEq, Eq)]
pub struct Robot {
    /// Stable identifier, used for task assignment and event routing.
    pub id: usize,
    /// Where the robot currently stands.
    pub position: Point,
    /// The task it is on its way to, if any.
    pub assignment: RobotAssignment,
    /// Where it has been.
    pub path: RobotPath,
}

/// A unit of work that one robot completes by travelling to it.
#[derive(Clone, Copy, Debug, PartialEq, Eq)]
pub struct Task {
    /// Stable identifier.
    pub id: usize,
    /// Where the task sits.
    pub position: Point,
    /// The robot that is on its way to the task, if any.
    pub assigned_to: Option<usize>,
    /// Whether a robot has arrived and completed the task.
    pub completed: bool,
}

/// A robot as a mathematical value: its path is a sequence.
pub struct RobotState {
    pub id: usize,
    pub position: Point,
    pub task_id: Option<usize>,
    pub path: Seq<Point>,
}

impl View for Robot {
    type V = RobotState;

    open spec fn view(&self) -> RobotState {
        RobotState {
            id: self.id,
            position: self.position,
            task_id: self.assignment.task_id,
            path: self.path.points@,
        }
    }
}

impl RobotState {
    /// Whether the robot is free to take a task.
    pub open spec fn idle(self) -> bool {
        self.task_id is None
    }
}

impl Task {
    /// Whether the task can still be handed to a robot: it is neither
    /// completed nor taken.
    pub open spec fn eligible(self) -> bool {
        !self.completed && self.assigned_to is None
    }

    /// Decides whether the task can still be handed to a robot.
    pub fn is_eligible(&self) -> (b: bool)
        ensures
            b == self.eligible(),
    {
        !self.completed && self.assigned_to.is_none()
    }
}

impl Robot {
    /// Decides whether the robot is free to take a task.
    pub fn is_idle(&self) -> (b: bool)
        ensures
            b == self@.idle(),
    {
        self.assignment.task_id.is_none()
    }
}

} // verus!
