//! The four-valued symbol alphabet and its fixed 2-bit wire encoding.

use vstd::prelude::*;

verus! {

/// A planar direction, the symbol alphabet of the codec.
///
/// The wire format assigns each variant a fixed 2-bit code; the assignment is
/// part of the format and must stay stable: `Up = 0b00`, `Down = 0b01`,
/// `Left = 0b10`, `Right = 0b11`.
#[derive(Clone, Copy, Debug, PartialEq, Eq, Structural)]
pub enum Direction {
    Up,
    Down,
    Left,
    Right,
}

/// The 2-bit code of a direction, as the wire format fixes it.
pub open spec fn code_of(d: Direction) -> u8 {
    match d {
        Direction::Up => 0,
        Direction::Down => 1,
        Direction::Left => 2,
        Direction::Right => 3,
    }
}

/// The direction a 2-bit code stands for.
pub open spec fn direction_of(c: u8) -> Direction
    recommends
        c <= 3,
{
    if c == 0 {
        Direction::Up
    } else if c == 1 {
        Direction::Down
    } else if c == 2 {
        Direction::Left
    } else {
        Direction::Right
    }
}

impl Direction {
    /// Returns the fixed 2-bit code of this direction.
    pub fn encode(&self) -> (r: u8)
        ensures
            r == code_of(*self),
            r <= 3,
    {
        match self {
            Direction::Up => 0b00,
            Direction::Down => 0b01,
            Direction::Left => 0b10,
            Direction::Right => 0b11,
        }
    }

    /// Returns the direction a 2-bit code stands for, or `None` when the
    /// value is not a valid 2-bit code.
    pub fn decode(value: u8) -> (r: Option<Direction>)
        ensures
            r == (if value <= 3 {
                Some(direction_of(value))
            } else {
                None::<Direction>
            }),
    {
        match value {
            0b00 => Some(Direction::Up),
            0b01 => Some(Direction::Down),
            0b10 => Some(Direction::Left),
            0b11 => Some(Direction::Right),
            _ => None,
        }
    }
}

/// Bijection law: encoding and decoding are mutually inverse, so the four
/// directions' codes are pairwise distinct and cover exactly the four 2-bit
/// values.
pub proof fn lemma_code_bijection()
    ensures
        forall|d: Direction| #[trigger] direction_of(code_of(d)) == d,
        forall|d: Direction| #[trigger] code_of(d) <= 3,
        forall|c: u8| c <= 3 ==> #[trigger] code_of(direction_of(c)) == c,
        forall|d1: Direction, d2: Direction|
            #[trigger] code_of(d1) == #[trigger] code_of(d2) ==> d1 == d2,
{
    assert forall|d: Direction| #[trigger] direction_of(code_of(d)) == d by {
        match d {
            Direction::Up => assert(direction_of(0) == Direction::Up),
            Direction::Down => assert(direction_of(1) == Direction::Down),
            Direction::Left => assert(direction_of(2) == Direction::Left),
            Direction::Right => assert(direction_of(3) == Direction::Right),
        }
    }
    assert forall|d1: Direction, d2: Direction|
        #[trigger] code_of(d1) == #[trigger] code_of(d2) implies d1 == d2 by {
        assert(direction_of(code_of(d1)) == d1);
        assert(direction_of(code_of(d2)) == d2);
    }
}

} // verus!
