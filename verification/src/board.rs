//! The executable pieces of one visit: reading the neighbours of a cell and
//! scheduling them.

use crate::fill::{around, cell, lemma_cell_in_grid, schedule, Around, Slot};
use vstd::prelude::*;

verus! {

/// The catalog position that a cell holds, if it is decided.
pub fn holding(slot: Slot) -> (r: Option<usize>)
    ensures
        r == match slot {
            Slot::Placed(k) => Some(k),
            _ => None::<usize>,
        },
{
    match slot {
        Slot::Placed(k) => Some(k),
        _ => None,
    }
}

/// The place of `(x, y)` in the row-major grid.
pub fn place_of(w: usize, h: usize, x: usize, y: usize) -> (i: usize)
    requires
        x < w,
        y < h,
        w * h <= usize::MAX,
    ensures
        i == cell(w as nat, x as int, y as int),
        i < w * h,
{
    proof {
        lemma_cell_in_grid(w as nat, h as nat, x as int, y as int);
        assert(w * y >= 0) by (nonlinear_arith)
            requires
                w >= 0,
                y >= 0,
        ;
    }
    w * y + x
}

/// Reads what the decided neighbours of `(x, y)` demand.
pub fn survey(slots: &Vec<Slot>, w: usize, h: usize, x: usize, y: usize) -> (a: Around)
    requires
        x < w,
        y < h,
        slots.len() == w * h,
    ensures
        a == around(slots@, w as nat, h as nat, x as int, y as int),
{
    let up = if y > 0 {
        holding(slots[place_of(w, h, x, y - 1)])
    } else {
        None
    };
    let right = if x + 1 < w {
        holding(slots[place_of(w, h, x + 1, y)])
    } else {
        None
    };
    let down = if y + 1 < h {
        holding(slots[place_of(w, h, x, y + 1)])
    } else {
        None
    };
    let left = if x > 0 {
        holding(slots[place_of(w, h, x - 1, y)])
    } else {
        None
    };
    Around { up, right, down, left }
}

/// Whether a visit schedules a neighbour in this state.
pub fn is_wanted(slot: Slot, from_stuck: bool) -> (r: bool)
    ensures
        r == match slot {
            Slot::Open => true,
            Slot::Stuck => !from_stuck,
            Slot::Placed(_) => false,
        },
{
    match slot {
        Slot::Open => true,
        Slot::Stuck => !from_stuck,
        Slot::Placed(_) => false,
    }
}

/// Schedules the neighbours of `(x, y)`: up, right, down, left, each one that
/// lies in the grid and is wanted.
pub fn schedule_neighbours(
    frontier: &mut Vec<(usize, usize)>,
    slots: &Vec<Slot>,
    w: usize,
    h: usize,
    x: usize,
    y: usize,
    from_stuck: bool,
)
    requires
        x < w,
        y < h,
        slots.len() == w * h,
    ensures
        final(frontier)@ == schedule(
            old(frontier)@,
            slots@,
            w as nat,
            h as nat,
            x as int,
            y as int,
            from_stuck,
        ),
{
    if y > 0 && is_wanted(slots[place_of(w, h, x, y - 1)], from_stuck) {
        frontier.push((x, y - 1));
    }
    if x + 1 < w && is_wanted(slots[place_of(w, h, x + 1, y)], from_stuck) {
        frontier.push((x + 1, y));
    }
    if y + 1 < h && is_wanted(slots[place_of(w, h, x, y + 1)], from_stuck) {
        frontier.push((x, y + 1));
    }
    if x > 0 && is_wanted(slots[place_of(w, h, x - 1, y)], from_stuck) {
        frontier.push((x - 1, y));
    }
}

} // verus!
