//! The orientation state machine: four compass directions and the
//! quarter-turn transition between them.

use vstd::prelude::*;

verus! {

/// One of the four compass directions the agent can face, arranged in
/// clockwise order.
#[derive(Clone, Copy, Debug, PartialEq, Eq, Structural)]
pub enum Direction {
    Up,
    Right,
    Down,
    Left,
}

/// The direction reached from `d` by one quarter turn: clockwise when
/// `clockwise` is true, counter-clockwise otherwise.
pub open spec fn turn_spec(d: Direction, clockwise: bool) -> Direction {
    match d {
        Direction::Up => if clockwise { Direction::Right } else { Direction::Left },
        Direction::Right => if clockwise { Direction::Down } else { Direction::Up },
        Direction::Down => if clockwise { Direction::Left } else { Direction::Right },
        Direction::Left => if clockwise { Direction::Up } else { Direction::Down },
    }
}

impl Direction {
    /// Rotate in place by one quarter turn, clockwise or counter-clockwise.
    pub fn turn(&mut self, clockwise: bool)
        ensures
            *final(self) == turn_spec(*old(self), clockwise),
    {
        *self = if clockwise {
            match *self {
                Direction::Up => Direction::Right,
                Direction::Right => Direction::Down,
                Direction::Down => Direction::Left,
                Direction::Left => Direction::Up,
            }
        } else {
            match *self {
                Direction::Up => Direction::Left,
                Direction::Left => Direction::Down,
                Direction::Down => Direction::Right,
                Direction::Right => Direction::Up,
            }
        };
    }
}

/// Four consecutive quarter turns in the same rotational direction return
/// every orientation to its original value.
pub proof fn lemma_turn_four_times(d: Direction, clockwise: bool)
    ensures
        turn_spec(turn_spec(turn_spec(turn_spec(d, clockwise), clockwise), clockwise), clockwise)
            == d,
{
}

} // verus!
