//! Where robots and tasks stand at the start of an epoch.
//!
//! Both positions are functions of the entity's id alone, so that a reset
//! puts everything back exactly where it was.

use vstd::prelude::*;
use crate::geometry::Point;

verus! {

/// The most robots a simulation can hold: the start position of every robot
/// below this count fits the coordinate range.
pub const MAX_ROBOTS: usize = 1_000_000;

/// Height above ground at which robots travel, in millimetres.
pub const ROBOT_HEIGHT: i32 = 500;

/// Height above ground at which tasks sit, in millimetres.
pub const TASK_HEIGHT: i32 = 250;

/// Distance between the start positions of neighbouring robots, in
/// millimetres.
pub const ROBOT_SPACING: i32 = 2000;

/// The x coordinate at which robot 0 starts, in millimetres.
pub const ROBOT_ORIGIN: i32 = -4000;

/// Width of the square field that tasks are scattered over, in millimetres.
/// The field is centred on the origin.
pub const FIELD_WIDTH: u32 = 14_000;

/// Offset between a task's id and the seed of its x coordinate.
pub const SEED_X: u64 = 10;

/// Offset between a task's id and the seed of its z coordinate.
pub const SEED_Z: u64 = 42;

/// `placement` yields millionths: its results lie in `0..PLACEMENT_SCALE`.
pub const PLACEMENT_SCALE: u32 = 1_000_000;

/// Length of one period of the wave that seeds are folded onto.
pub const PERIOD: u64 = 62_832;

/// Half of `PERIOD`.
pub const HALF_PERIOD: u64 = 31_416;

/// How far along the wave one step of the seed moves.
pub const STEP: u64 = 4_234;

/// Factor by which the wave is spread before its fraction is taken.
pub const SPREAD: u64 = 177;

/// The place on the wave that `seed` falls on, in `0..PERIOD`.
pub open spec fn phase(seed: nat) -> nat {
    ((seed % PERIOD as nat) * STEP as nat) % PERIOD as nat
}

/// The fraction that remains of a spread-out wave height, in millionths.
pub open spec fn fraction(height: nat) -> nat {
    (height * SPREAD as nat) % PLACEMENT_SCALE as nat
}

/// A fixed scatter of the seeds over `0..PLACEMENT_SCALE`, standing for the
/// unit interval in millionths.
///
/// The seed is scaled and folded onto a wave of two parabolic arcs, one above
/// and one below zero; the wave's height is spread out and only its fraction
/// is kept, counted upwards on the first arc and downwards on the second.
#[verifier::opaque]
pub open spec fn placement(seed: nat) -> nat {
    let p = phase(seed);
    if p < HALF_PERIOD as nat {
        fraction((p * (HALF_PERIOD as nat - p)) as nat)
    } else {
        (PLACEMENT_SCALE as nat - 1 - fraction(((p - HALF_PERIOD as nat) * (PERIOD as nat - p)) as nat)) as nat
    }
}

/// Where the robot with the given id starts: on a line along the x axis, one
/// spacing apart, at robot height.
pub open spec fn robot_start(id: nat) -> Point {
    Point { x: (id * ROBOT_SPACING as nat + ROBOT_ORIGIN as int) as i32, y: ROBOT_HEIGHT, z: 0 }
}

/// One horizontal coordinate of a task, in millimetres: the placement of
/// `seed` stretched over the field.
pub open spec fn field_coordinate(seed: nat) -> int {
    placement(seed) * FIELD_WIDTH as nat / PLACEMENT_SCALE as nat - FIELD_WIDTH as nat / 2
}

/// Where the task with the given id sits: scattered over the field, at task
/// height.
pub open spec fn task_site(id: nat) -> Point {
    Point {
        x: field_coordinate(id + SEED_X as nat) as i32,
        y: TASK_HEIGHT,
        z: field_coordinate(id + SEED_Z as nat) as i32,
    }
}

/// Placements depend on the seed only through its remainder modulo `PERIOD`,
/// and stay below `PLACEMENT_SCALE`.
pub proof fn lemma_placement_periodic(a: nat, b: nat)
    requires
        a % PERIOD as nat == b % PERIOD as nat,
    ensures
        placement(a) == placement(b),
        placement(a) < PLACEMENT_SCALE,
{
    reveal(placement);
}

/// Every task sits inside the field.
pub proof fn lemma_task_site_in_field(id: nat)
    ensures
        -(FIELD_WIDTH as int) / 2 <= task_site(id).x < FIELD_WIDTH as int / 2,
        -(FIELD_WIDTH as int) / 2 <= task_site(id).z < FIELD_WIDTH as int / 2,
        task_site(id).y == TASK_HEIGHT,
{
    lemma_placement_periodic(id + SEED_X as nat, id + SEED_X as nat);
    lemma_placement_periodic(id + SEED_Z as nat, id + SEED_Z as nat);
}

/// The fraction of the spread-out height `a * b` of an arc.
fn arc_fraction(a: u64, b: u64) -> (r: u64)
    requires
        a <= HALF_PERIOD,
        b <= HALF_PERIOD,
    ensures
        r == fraction((a * b) as nat),
{
    assert(a * b <= 31_416 * 31_416) by (nonlinear_arith)
        requires
            a <= 31_416,
            b <= 31_416,
    ;
    (a * b * SPREAD) % (PLACEMENT_SCALE as u64)
}

/// A deterministic scatter of `seed` over `0..PLACEMENT_SCALE`.
pub fn pseudo_random(seed: u64) -> (r: u32)
    ensures
        r == placement(seed as nat),
        r < PLACEMENT_SCALE,
{
    reveal(placement);
    let p: u64 = ((seed % PERIOD) * STEP) % PERIOD;
    if p < HALF_PERIOD {
        arc_fraction(p, HALF_PERIOD - p) as u32
    } else {
        PLACEMENT_SCALE - 1 - arc_fraction(p - HALF_PERIOD, PERIOD - p) as u32
    }
}

/// The start position of the robot with the given id.
pub fn robot_start_position(robot_id: usize) -> (p: Point)
    requires
        robot_id < MAX_ROBOTS,
    ensures
        p == robot_start(robot_id as nat),
{
    Point { x: robot_id as i32 * ROBOT_SPACING + ROBOT_ORIGIN, y: ROBOT_HEIGHT, z: 0 }
}

/// The field coordinate that `seed` is scattered to.
fn scatter(seed: u64) -> (c: i32)
    ensures
        c == field_coordinate(seed as nat),
        -(FIELD_WIDTH as int) / 2 <= c < FIELD_WIDTH as int / 2,
{
    let r: u64 = pseudo_random(seed) as u64;
    assert(r * FIELD_WIDTH == r * 14_000 && PLACEMENT_SCALE == 1_000_000);
    let along: u64 = r * FIELD_WIDTH as u64 / PLACEMENT_SCALE as u64;
    assert(along == (r * 14_000) / 1_000_000);
    along as i32 - (FIELD_WIDTH / 2) as i32
}

/// The position of the task with the given id.
pub fn task_position(task_id: usize) -> (p: Point)
    ensures
        p == task_site(task_id as nat),
{
    let base: u64 = task_id as u64 % PERIOD;
    proof {
        lemma_placement_periodic((base + SEED_X) as nat, task_id as nat + SEED_X as nat);
        lemma_placement_periodic((base + SEED_Z) as nat, task_id as nat + SEED_Z as nat);
    }
    Point { x: scatter(base + SEED_X), y: TASK_HEIGHT, z: scatter(base + SEED_Z) }
}

} // verus!
