//! Unattended demo mode: a fixed schedule of punches fed through the same
//! entry point as the player's clicks, one screenshot, then exit. The clock
//! stays with the caller; these steps decide what happens when a deadline
//! has passed.

use vstd::prelude::*;
use crate::wall::{cell_of, in_wall, Cell};

verus! {

/// How many punches the demo schedule holds.
pub const PUNCH_COUNT: usize = 8;

/// The `i`-th scheduled punch, `(c, y, x)`: eight bricks of the layer that
/// faces the camera, knocking a 2 × 4 hole.
pub open spec fn scheduled(i: int) -> Cell {
    if i == 0 {
        (1, 5, 5)
    } else if i == 1 {
        (1, 6, 5)
    } else if i == 2 {
        (1, 5, 6)
    } else if i == 3 {
        (1, 6, 6)
    } else if i == 4 {
        (1, 4, 6)
    } else if i == 5 {
        (1, 7, 5)
    } else if i == 6 {
        (1, 4, 5)
    } else {
        (1, 7, 6)
    }
}

/// The `i`-th scheduled punch, or `None` past the end of the schedule.
pub fn scheduled_punch(i: usize) -> (p: Option<(usize, usize, usize)>)
    ensures
        i < PUNCH_COUNT ==> p is Some && cell_of(p->0) == scheduled(i as int),
        i >= PUNCH_COUNT ==> p is None,
{
    match i {
        0 => Some((1, 5, 5)),
        1 => Some((1, 6, 5)),
        2 => Some((1, 5, 6)),
        3 => Some((1, 6, 6)),
        4 => Some((1, 4, 6)),
        5 => Some((1, 7, 5)),
        6 => Some((1, 4, 5)),
        7 => Some((1, 7, 6)),
        _ => None,
    }
}

/// The scheduled punches hit eight different bricks of the wall.
pub proof fn lemma_schedule_distinct_bricks()
    ensures
        forall|i: int| 0 <= i < PUNCH_COUNT ==> #[trigger] in_wall(scheduled(i)),
        forall|i: int, j: int| 0 <= i < j < PUNCH_COUNT ==> #[trigger] scheduled(i) != #[trigger] scheduled(j),
{
}

/// The schedule's order, for every step: all punches hit the layer facing
/// the camera; the first four clear the 2 × 2 core (courses 5–6, columns
/// 5–6) column by column, lower course first; the last four widen the hole
/// by one course, alternating below (course 4) and above (course 7), at
/// columns 6, 5, 5, 6.
pub proof fn lemma_schedule_order(i: int)
    requires
        0 <= i < PUNCH_COUNT,
    ensures
        scheduled(i).0 == 1,
        i < 4 ==> scheduled(i).1 == 5 + i % 2 && scheduled(i).2 == 5 + i / 2,
        i >= 4 ==> scheduled(i).1 == (if i % 2 == 0 { 4int } else { 7int }),
        i >= 4 ==> scheduled(i).2 == (if i == 4 || i == 7 { 6int } else { 5int }),
{
}

/// The demo's progress: punches fired so far and whether the screenshot has
/// been requested.
pub struct DemoDriver {
    pub actions_done: usize,
    pub shot_taken: bool,
}

impl DemoDriver {
    /// Nothing done yet.
    pub fn new() -> (d: Self)
        ensures
            d.actions_done == 0,
            !d.shot_taken,
    {
        DemoDriver { actions_done: 0, shot_taken: false }
    }

    /// Fire the next scheduled punch once its time has come (`due`): returns
    /// the brick to punch and counts it; returns `None` and changes nothing
    /// when it is not yet time or the schedule is spent.
    pub fn punch_step(&mut self, due: bool) -> (p: Option<(usize, usize, usize)>)
        ensures
            (due && old(self).actions_done < PUNCH_COUNT) ==> {
                &&& p is Some
                &&& cell_of(p->0) == scheduled(old(self).actions_done as int)
                &&& final(self).actions_done == old(self).actions_done + 1
            },
            !(due && old(self).actions_done < PUNCH_COUNT) ==> p is None && final(self).actions_done == old(self).actions_done,
            final(self).shot_taken == old(self).shot_taken,
    {
        if due && self.actions_done < PUNCH_COUNT {
            let p = scheduled_punch(self.actions_done);
            self.actions_done += 1;
            p
        } else {
            None
        }
    }

    /// Request the screenshot once its time has come (`due`): true exactly
    /// once, the first time it is due.
    pub fn shot_step(&mut self, due: bool) -> (take: bool)
        ensures
            take == (due && !old(self).shot_taken),
            final(self).shot_taken == (old(self).shot_taken || due),
            final(self).actions_done == old(self).actions_done,
    {
        if due && !self.shot_taken {
            self.shot_taken = true;
            true
        } else {
            false
        }
    }
}

impl Default for DemoDriver {
    fn default() -> (d: Self)
        ensures
            d.actions_done == 0,
            !d.shot_taken,
    {
        DemoDriver::new()
    }
}

} // verus!
