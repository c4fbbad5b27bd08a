//! Pieces, their kinds and sides, and what each is doing: resting or in transit.
use vstd::prelude::*;
use crate::position::{linf, Position, BOARD_SIZE};

verus! {

/// Ticks a piece must wait after arriving before it may move again.
pub const PIECE_COOLDOWN: u32 = 10;

#[derive(Debug, Clone, Copy, PartialEq, Eq, Structural)]
pub enum PieceKind {
    Pawn,
    Knight,
    Bishop,
    Rook,
    Queen,
    King,
}

#[derive(Debug, Clone, Copy, PartialEq, Eq, Structural)]
pub enum Side {
    White,
    Black,
}

/// The destination of a piece in transit.
#[derive(Debug, Clone, Copy, PartialEq, Eq, Structural)]
pub struct MoveTarget {
    /// The square the piece lands on.
    pub target: Position,
    /// Ticks left before it lands.
    pub turns_left: u32,
    /// Ticks already spent in transit; the piece that left first has right of way.
    pub priority: u32,
}

/// What a piece is doing. A moving piece keeps the square it left, so that
/// its position at any moment of the transit is known exactly.
#[derive(Debug, Clone, Copy, PartialEq, Eq, Structural)]
pub enum PieceState {
    Stationary { position: Position, cooldown: u32 },
    Moving { origin: Position, target: MoveTarget },
}

#[derive(Debug, Clone, Copy, PartialEq, Eq, Structural)]
pub struct Piece {
    pub side: Side,
    pub kind: PieceKind,
    pub state: PieceState,
}

pub open spec fn kind_char(kind: PieceKind) -> char {
    match kind {
        PieceKind::Pawn => 'P',
        PieceKind::Knight => 'N',
        PieceKind::Bishop => 'B',
        PieceKind::Rook => 'R',
        PieceKind::Queen => 'Q',
        PieceKind::King => 'K',
    }
}

pub open spec fn kind_of_char(c: char) -> Option<PieceKind> {
    if c == 'P' {
        Some(PieceKind::Pawn)
    } else if c == 'N' {
        Some(PieceKind::Knight)
    } else if c == 'B' {
        Some(PieceKind::Bishop)
    } else if c == 'R' {
        Some(PieceKind::Rook)
    } else if c == 'Q' {
        Some(PieceKind::Queen)
    } else if c == 'K' {
        Some(PieceKind::King)
    } else {
        None
    }
}

/// Row direction in which a side's pawns advance.
pub open spec fn forward(side: Side) -> int {
    match side {
        Side::White => -1,
        Side::Black => 1,
    }
}

/// The row on which a side's pawns promote.
pub open spec fn promotion_row(side: Side) -> u32 {
    match side {
        Side::White => 0,
        Side::Black => (BOARD_SIZE - 1) as u32,
    }
}

/// The row from which a side's pawns may advance two squares.
pub open spec fn pawn_start_row(side: Side) -> u32 {
    match side {
        Side::White => (BOARD_SIZE - 2) as u32,
        Side::Black => 1,
    }
}

pub fn forward_y(side: Side) -> (r: i32)
    ensures
        r == forward(side),
{
    match side {
        Side::White => -1i32,
        Side::Black => 1i32,
    }
}

impl PieceKind {
    /// The kind written by an upper-case letter, if any.
    pub fn from_char(value: char) -> (r: Option<PieceKind>)
        ensures
            r == kind_of_char(value),
    {
        match value {
            'P' => Some(PieceKind::Pawn),
            'N' => Some(PieceKind::Knight),
            'B' => Some(PieceKind::Bishop),
            'R' => Some(PieceKind::Rook),
            'Q' => Some(PieceKind::Queen),
            'K' => Some(PieceKind::King),
            _ => None,
        }
    }

    /// The upper-case letter of the kind.
    pub fn to_char(self) -> (r: char)
        ensures
            r == kind_char(self),
            kind_of_char(r) == Some(self),
    {
        match self {
            PieceKind::Pawn => 'P',
            PieceKind::Knight => 'N',
            PieceKind::Bishop => 'B',
            PieceKind::Rook => 'R',
            PieceKind::Queen => 'Q',
            PieceKind::King => 'K',
        }
    }
}

impl MoveTarget {
    /// Priority of a piece that has just set off.
    pub const MIN_PRIORITY: u32 = 0;

    pub fn new(target: Position, turns_left: u32, priority: u32) -> (r: MoveTarget)
        ensures
            r.target == target,
            r.turns_left == turns_left,
            r.priority == priority,
    {
        MoveTarget { target, turns_left, priority }
    }
}

impl PieceState {
    pub open spec fn is_stationary(self) -> bool {
        self is Stationary
    }

    pub open spec fn is_moving(self) -> bool {
        self is Moving
    }

    /// Well-formedness: squares on the board, cooldown at most the full
    /// cooldown, and a transit whose length is the Chebyshev distance covered.
    pub open spec fn wf(self) -> bool {
        match self {
            PieceState::Stationary { position, cooldown } => position.on_board() && cooldown
                <= PIECE_COOLDOWN,
            PieceState::Moving { origin, target } => {
                &&& origin.on_board()
                &&& target.target.on_board()
                &&& target.turns_left >= 1
                &&& linf(target.target.x - origin.x, target.target.y - origin.y)
                    == target.turns_left + target.priority
            },
        }
    }
}

impl Piece {
    pub open spec fn wf(self) -> bool {
        self.state.wf()
    }

    /// Right of way in a capture: ticks spent in transit, -1 when at rest.
    pub open spec fn priority(self) -> int {
        match self.state {
            PieceState::Stationary { .. } => -1,
            PieceState::Moving { target, .. } => target.priority as int,
        }
    }

    pub open spec fn is_moving(self) -> bool {
        self.state is Moving
    }

    /// At rest and ready to move.
    pub open spec fn is_ready(self) -> bool {
        self.state matches PieceState::Stationary { cooldown, .. } && cooldown == 0
    }

    pub fn is_stationary(&self) -> (r: bool)
        ensures
            r == self.state.is_stationary(),
    {
        match self.state {
            PieceState::Stationary { .. } => true,
            PieceState::Moving { .. } => false,
        }
    }

    pub fn is_moving_exec(&self) -> (r: bool)
        ensures
            r == self.is_moving(),
    {
        match self.state {
            PieceState::Stationary { .. } => false,
            PieceState::Moving { .. } => true,
        }
    }
}

} // verus!
