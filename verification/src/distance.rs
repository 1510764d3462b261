//! Distances on the grid, and what they cost.

use vstd::prelude::*;

verus! {

pub open spec fn magnitude(n: int) -> int {
    if n < 0 {
        -n
    } else {
        n
    }
}

/// The Manhattan distance between two places of the grid.
pub open spec fn grid_distance(a: (int, int), b: (int, int)) -> int {
    magnitude(a.0 - b.0) + magnitude(a.1 - b.1)
}

/// The distance between two places can be computed in 64 bits.
pub open spec fn distance_fits(a: (int, int), b: (int, int)) -> bool {
    &&& magnitude(a.0 - b.0) <= i64::MAX
    &&& magnitude(a.1 - b.1) <= i64::MAX
    &&& grid_distance(a, b) <= i64::MAX
}

/// The cost of getting from one place to another, over a barrier, can be
/// computed in 64 bits.
pub open spec fn cost_fits(from: (int, int), to: (int, int), barrier_penalty: int) -> bool {
    &&& distance_fits(from, to)
    &&& i64::MIN <= grid_distance(from, to) + barrier_penalty <= i64::MAX
}

fn gap(a: i64, b: i64) -> (r: i64)
    requires
        magnitude(a - b) <= i64::MAX,
    ensures
        r == magnitude(a - b),
{
    if a < b {
        b - a
    } else {
        a - b
    }
}

/// The Manhattan distance between two places of the grid.
pub fn distance(ax: i64, ay: i64, bx: i64, by: i64) -> (r: i64)
    requires
        distance_fits((ax as int, ay as int), (bx as int, by as int)),
    ensures
        r == grid_distance((ax as int, ay as int), (bx as int, by as int)),
{
    gap(ax, bx) + gap(ay, by)
}

fn wide_gap(a: i64, b: i64) -> (r: i128)
    ensures
        r == magnitude(a - b),
{
    let x: i128 = a as i128;
    let y: i128 = b as i128;
    if x < y {
        y - x
    } else {
        x - y
    }
}

/// Whether the cost of getting from one place to another, over a barrier, can
/// be computed in 64 bits.
pub fn has_cost(from: &[i64; 2], to: &[i64; 2], barrier_penalty: i64) -> (r: bool)
    ensures
        r == cost_fits(
            (from@[0] as int, from@[1] as int),
            (to@[0] as int, to@[1] as int),
            barrier_penalty as int,
        ),
{
    let across: i128 = wide_gap(from[0], to[0]);
    let along: i128 = wide_gap(from[1], to[1]);
    let most: i128 = i64::MAX as i128;
    let least: i128 = i64::MIN as i128;
    let total: i128 = across + along + barrier_penalty as i128;
    across <= most && along <= most && across + along <= most && least <= total && total <= most
}

} // verus!
