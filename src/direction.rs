use vstd::prelude::*;

verus! {

/// The four directions a move can slide the tiles in.
#[derive(Debug, Clone, Copy, PartialEq, Eq, Structural)]
pub enum Direction {
    Up,
    Down,
    Left,
    Right,
}

/// The direction bound to a key of the W/A/S/D cluster, in either case.
pub open spec fn wasd_direction(c: char) -> Option<Direction> {
    if c == 'w' || c == 'W' {
        Some(Direction::Up)
    } else if c == 'a' || c == 'A' {
        Some(Direction::Left)
    } else if c == 's' || c == 'S' {
        Some(Direction::Down)
    } else if c == 'd' || c == 'D' {
        Some(Direction::Right)
    } else {
        None
    }
}

impl Direction {
    /// Maps a key press to a direction: `w` up, `a` left, `s` down, `d` right,
    /// ignoring case; any other key maps to nothing.
    pub fn from_wasd(c: char) -> (r: Option<Direction>)
        ensures
            r == wasd_direction(c),
    {
        match c {
            'w' | 'W' => Some(Direction::Up),
            'a' | 'A' => Some(Direction::Left),
            's' | 'S' => Some(Direction::Down),
            'd' | 'D' => Some(Direction::Right),
            _ => None,
        }
    }
}

} // verus!
