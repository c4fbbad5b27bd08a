//! A real-time chess variant: moves unfold over several ticks, pieces capture
//! one another mid-flight by proximity, and an alpha-beta search plays it.

pub mod position;
pub mod piece;
pub mod geometry;
pub mod board;
pub mod step;
pub mod transit;
pub mod movegen;
pub mod text;
pub mod search;
pub mod counter;
pub mod random;

pub use position::{Delta, Position};
pub use piece::{MoveTarget, Piece, PieceKind, PieceState, Side};
pub use board::{BoardMove, BoardState, CastleFlags};
pub use counter::PieceCounter;
pub use piece::{forward_y, PIECE_COOLDOWN};
pub use position::BOARD_SIZE;
pub use search::{
    evaluate_material_heuristic, search_white, EndState, MinimaxOutput, MinimaxOutputInfo,
};
pub use text::{initial_positions, to_char_map, FenError};
