//! The circular layout: nodes evenly spaced round a circle by their
//! position in the list, whatever their scores.

use vstd::prelude::*;

verus! {

/// A full turn in fixed-point degrees.
pub const FULL_TURN: i64 = 360_000_000;

/// The angle of node `index` of `count`, in fixed-point degrees rounded
/// down: the fraction `index / count` of a full turn.
pub open spec fn angle_of(index: int, count: int) -> int {
    index * FULL_TURN / count
}

/// Computes [`angle_of`].
pub fn node_angle(index: usize, count: usize) -> (angle: i64)
    requires
        index < count,
    ensures
        angle == angle_of(index as int, count as int),
        0 <= angle < FULL_TURN,
{
    let turn: u128 = 360_000_000;
    let scaled: u128 = (index as u128) * turn;
    proof {
        lemma_angle_in_turn(index as int, count as int);
    }
    (scaled / (count as u128)) as i64
}

/// Every angle lies within one turn, and the first node is at angle zero.
pub proof fn lemma_angle_in_turn(index: int, count: int)
    requires
        0 <= index < count,
    ensures
        0 <= angle_of(index, count) < FULL_TURN,
        angle_of(0, count) == 0,
{
    assert(0 <= index * 360_000_000 / count < 360_000_000) by (nonlinear_arith)
        requires
            0 <= index < count,
    ;
    assert(0int * 360_000_000 / count == 0) by (nonlinear_arith)
        requires
            count > 0,
    ;
}

/// The nodes are evenly spaced: from one node to the next the angle grows
/// by as much as from the first to the second, give or take the rounding.
pub proof fn lemma_angles_even(index: int, count: int)
    requires
        0 <= index,
        index + 1 < count,
    ensures
        angle_of(1, count) <= angle_of(index + 1, count) - angle_of(index, count) <= angle_of(
            1,
            count,
        ) + 1,
{
    let turn = 360_000_000int;
    let here = index * turn;
    assert((index + 1) * turn == here + turn) by (nonlinear_arith)
        requires
            here == index * turn,
    ;
    vstd::arithmetic::div_mod::lemma_fundamental_div_mod(here, count);
    vstd::arithmetic::div_mod::lemma_fundamental_div_mod(turn, count);
    vstd::arithmetic::div_mod::lemma_fundamental_div_mod(here + turn, count);
    vstd::arithmetic::div_mod::lemma_mod_bound(here, count);
    vstd::arithmetic::div_mod::lemma_mod_bound(turn, count);
    vstd::arithmetic::div_mod::lemma_mod_bound(here + turn, count);
    let a = here / count;
    let b = turn / count;
    let c = (here + turn) / count;
    assert(b <= c - a <= b + 1) by (nonlinear_arith)
        requires
            count > 0,
            here == count * a + here % count,
            turn == count * b + turn % count,
            here + turn == count * c + (here + turn) % count,
            0 <= here % count < count,
            0 <= turn % count < count,
            0 <= (here + turn) % count < count,
    ;
}

} // verus!
