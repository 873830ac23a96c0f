//! Directions on the plane. (Points, sizes and rectangles hold floating-point
//! coordinates and live with the drawing code.)
use vstd::prelude::*;

verus! {

/// The four directions along the axes of the drawing plane (`Up` is toward
/// smaller `y`).
#[derive(Debug, Clone, Copy, PartialEq, Eq, Hash, Structural)]
pub enum Orientation {
    Up,
    Down,
    Left,
    Right,
}

impl Orientation {
    /// The name of the direction.
    pub open spec fn spec_text(self) -> Seq<char> {
        match self {
            Orientation::Up => seq!['U', 'p'],
            Orientation::Down => seq!['D', 'o', 'w', 'n'],
            Orientation::Left => seq!['L', 'e', 'f', 't'],
            Orientation::Right => seq!['R', 'i', 'g', 'h', 't'],
        }
    }

    /// The name of the direction: `Up`, `Down`, `Left` or `Right`.
    pub fn to_string(&self) -> (r: String)
        ensures
            r@ == self.spec_text(),
    {
        let r = match self {
            Orientation::Up => crate::text::string_of("Up"),
            Orientation::Down => crate::text::string_of("Down"),
            Orientation::Left => crate::text::string_of("Left"),
            Orientation::Right => crate::text::string_of("Right"),
        };
        proof {
            reveal_strlit("Up");
            reveal_strlit("Down");
            reveal_strlit("Left");
            reveal_strlit("Right");
        }
        r
    }

    /// The opposite direction.
    pub open spec fn opposite(self) -> Orientation {
        match self {
            Orientation::Up => Orientation::Down,
            Orientation::Down => Orientation::Up,
            Orientation::Left => Orientation::Right,
            Orientation::Right => Orientation::Left,
        }
    }
    /// One step in the direction, as `(dx, dy)`: `y` grows downward.
    pub open spec fn spec_step(self) -> (int, int) {
        match self {
            Orientation::Up => (0, -1),
            Orientation::Down => (0, 1),
            Orientation::Left => (-1, 0),
            Orientation::Right => (1, 0),
        }
    }

    /// One step in the direction, as `(dx, dy)`: `y` grows downward.
    pub fn step(&self) -> (r: (i32, i32))
        ensures
            r.0 == self.spec_step().0,
            r.1 == self.spec_step().1,
    {
        match self {
            Orientation::Up => (0, -1),
            Orientation::Down => (0, 1),
            Orientation::Left => (-1, 0),
            Orientation::Right => (1, 0),
        }
    }
}

/// How a path goes on at a point where a segment in one direction meets a
/// segment in another.
#[derive(Debug, Clone, Copy, PartialEq, Eq, Structural)]
pub enum Turn {
    /// The path goes straight on.
    Straight,
    /// The path turns back on itself.
    Reverse,
    /// The path turns a corner: it stops short of the point on the side
    /// `from`, and curves round to leave it toward `to`.
    Corner { from: Orientation, to: Orientation },
}

/// The turn a path takes where a segment in direction `incoming` meets a
/// segment in direction `outgoing`.
pub open spec fn spec_turn(incoming: Orientation, outgoing: Orientation) -> Turn {
    if incoming == outgoing {
        Turn::Straight
    } else if outgoing == incoming.opposite() {
        Turn::Reverse
    } else {
        Turn::Corner { from: incoming.opposite(), to: outgoing }
    }
}

/// The turn a path takes where a segment in direction `incoming` meets a
/// segment in direction `outgoing`.
pub fn turn_between(incoming: Orientation, outgoing: Orientation) -> (r: Turn)
    ensures
        r == spec_turn(incoming, outgoing),
{
    match (incoming, outgoing) {
        (Orientation::Up, Orientation::Up)
        | (Orientation::Down, Orientation::Down)
        | (Orientation::Left, Orientation::Left)
        | (Orientation::Right, Orientation::Right) => Turn::Straight,
        (Orientation::Up, Orientation::Down)
        | (Orientation::Down, Orientation::Up)
        | (Orientation::Left, Orientation::Right)
        | (Orientation::Right, Orientation::Left) => Turn::Reverse,
        (Orientation::Up, Orientation::Left) => Turn::Corner { from: Orientation::Down, to: Orientation::Left },
        (Orientation::Right, Orientation::Down) => Turn::Corner { from: Orientation::Left, to: Orientation::Down },
        (Orientation::Up, Orientation::Right) => Turn::Corner { from: Orientation::Down, to: Orientation::Right },
        (Orientation::Down, Orientation::Left) => Turn::Corner { from: Orientation::Up, to: Orientation::Left },
        (Orientation::Down, Orientation::Right) => Turn::Corner { from: Orientation::Up, to: Orientation::Right },
        (Orientation::Left, Orientation::Up) => Turn::Corner { from: Orientation::Right, to: Orientation::Up },
        (Orientation::Left, Orientation::Down) => Turn::Corner { from: Orientation::Right, to: Orientation::Down },
        (Orientation::Right, Orientation::Up) => Turn::Corner { from: Orientation::Left, to: Orientation::Up },
    }
}

/// A corner stays on the two segments it joins: it starts on the incoming
/// segment, behind the point, and ends on the outgoing one, and the two
/// steps are at a right angle.
pub proof fn lemma_corner_on_segments(incoming: Orientation, outgoing: Orientation)
    requires
        spec_turn(incoming, outgoing) is Corner,
    ensures
        spec_turn(incoming, outgoing) matches Turn::Corner { from, to } && from.spec_step().0
            == -incoming.spec_step().0 && from.spec_step().1 == -incoming.spec_step().1 && to == outgoing
            && from.spec_step().0 * to.spec_step().0 + from.spec_step().1 * to.spec_step().1 == 0,
{
}

} // verus!
