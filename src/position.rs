//! Squares of the grid and displacements between them.
use vstd::prelude::*;

verus! {

/// Number of rows and of columns on the board.
pub const BOARD_SIZE: usize = 8;

/// A square of the grid: column `x`, row `y` (row 0 is Black's back rank).
#[derive(Debug, Clone, Copy, PartialEq, Eq, Structural)]
pub struct Position {
    pub x: u32,
    pub y: u32,
}

/// A signed displacement between two squares.
#[derive(Debug, Clone, Copy, PartialEq, Eq, Structural)]
pub struct Delta {
    pub x: i32,
    pub y: i32,
}

pub open spec fn abs(v: int) -> int {
    if v < 0 { -v } else { v }
}

pub open spec fn max(a: int, b: int) -> int {
    if a < b { b } else { a }
}

pub open spec fn clamp_int(v: int, lo: int, hi: int) -> int {
    if v < lo { lo } else if v > hi { hi } else { v }
}

/// Chebyshev length of a displacement.
pub open spec fn linf(dx: int, dy: int) -> int {
    max(abs(dx), abs(dy))
}

impl Position {
    pub open spec fn on_board(self) -> bool {
        self.x < BOARD_SIZE && self.y < BOARD_SIZE
    }

    pub fn is_on_board(&self) -> (r: bool)
        ensures
            r == self.on_board(),
    {
        self.x < BOARD_SIZE as u32 && self.y < BOARD_SIZE as u32
    }

    pub fn new(x: u32, y: u32) -> (r: Position)
        ensures
            r.x == x && r.y == y,
    {
        Position { x, y }
    }

    /// The displacement `self - other`.
    pub fn minus(self, other: Position) -> (r: Delta)
        requires
            self.on_board(),
            other.on_board(),
        ensures
            r.x == self.x - other.x,
            r.y == self.y - other.y,
    {
        Delta { x: self.x as i32 - other.x as i32, y: self.y as i32 - other.y as i32 }
    }

    /// The square reached by adding `d`, when it lies on the board.
    pub fn offset(self, d: Delta) -> (r: Option<Position>)
        requires
            self.on_board(),
        ensures
            match r {
                Some(p) => p.on_board() && p.x == self.x + d.x && p.y == self.y + d.y,
                None => !(0 <= self.x + d.x < BOARD_SIZE && 0 <= self.y + d.y < BOARD_SIZE),
            },
    {
        let x = self.x as i64 + d.x as i64;
        let y = self.y as i64 + d.y as i64;
        if 0 <= x && x < BOARD_SIZE as i64 && 0 <= y && y < BOARD_SIZE as i64 {
            Some(Position { x: x as u32, y: y as u32 })
        } else {
            None
        }
    }
}

impl Delta {
    pub fn new(x: i32, y: i32) -> (r: Delta)
        ensures
            r.x == x && r.y == y,
    {
        Delta { x, y }
    }

    /// Clamps each component into `[min, max]`.
    pub fn clamp(self, min: i32, max: i32) -> (r: Delta)
        requires
            min <= max,
        ensures
            r.x == clamp_int(self.x as int, min as int, max as int),
            r.y == clamp_int(self.y as int, min as int, max as int),
    {
        let x = if self.x < min { min } else if self.x > max { max } else { self.x };
        let y = if self.y < min { min } else if self.y > max { max } else { self.y };
        Delta { x, y }
    }

    /// Chebyshev distance `max(|x|, |y|)`: the number of ticks a move takes.
    pub fn dist_linf(self) -> (r: u32)
        requires
            self.x > i32::MIN,
            self.y > i32::MIN,
        ensures
            r == linf(self.x as int, self.y as int),
    {
        let ax = if self.x < 0 { -self.x } else { self.x };
        let ay = if self.y < 0 { -self.y } else { self.y };
        if ax < ay { ay as u32 } else { ax as u32 }
    }
}

} // verus!
