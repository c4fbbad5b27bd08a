//! The board: its pieces, the moves handed to it, and the queries that
//! the move generator and the time engine share.
use vstd::prelude::*;
use itertools::Itertools;
use crate::piece::{Piece, PieceState, Side};
use crate::position::Position;

verus! {

/// Whether each side may still castle on one wing. Castling is not played:
/// every board this library builds has both flags false.
#[derive(Debug, Clone, Copy, PartialEq, Eq, Structural)]
pub struct CastleFlags {
    pub white: bool,
    pub black: bool,
}

/// The pieces on the board, in no meaningful order, and the castling flags.
#[derive(Debug, Clone)]
pub struct BoardState {
    pub pieces: Vec<Piece>,
    pub can_long_castle: CastleFlags,
    pub can_short_castle: CastleFlags,
}

/// A move handed to the board: a pass, a castle (never legal), or a piece
/// sent from where it stands to a target square.
#[derive(Debug, Clone, Copy, PartialEq, Eq, Structural)]
pub enum BoardMove {
    Pass(Side),
    LongCastle(Side),
    ShortCastle(Side),
    Normal { piece: Piece, target: Position },
}

impl BoardMove {
    pub open spec fn side_of(self) -> Side {
        match self {
            BoardMove::Pass(side) => side,
            BoardMove::LongCastle(side) => side,
            BoardMove::ShortCastle(side) => side,
            BoardMove::Normal { piece, .. } => piece.side,
        }
    }

    pub fn side(&self) -> (r: Side)
        ensures
            r == self.side_of(),
    {
        match self {
            BoardMove::Pass(side) => *side,
            BoardMove::LongCastle(side) => *side,
            BoardMove::ShortCastle(side) => *side,
            BoardMove::Normal { piece, .. } => piece.side,
        }
    }
}

/// The piece stands still on `pos`.
pub open spec fn stationary_at(p: Piece, pos: Position) -> bool {
    p.state matches PieceState::Stationary { position, .. } && position == pos
}

/// The piece holds `pos`: it stands there, or it is on its way there.
pub open spec fn claims(p: Piece, pos: Position) -> bool {
    match p.state {
        PieceState::Stationary { position, .. } => position == pos,
        PieceState::Moving { target, .. } => target.target == pos,
    }
}

/// No piece of `side` holds `dest`, so a piece of `side` may be sent there.
pub open spec fn valid_destination(ps: Seq<Piece>, side: Side, dest: Position) -> bool {
    forall|i: int| 0 <= i < ps.len() ==> !(ps[i].side == side && #[trigger] claims(ps[i], dest))
}

/// Some piece stands still on `pos`.
pub open spec fn occupied(ps: Seq<Piece>, pos: Position) -> bool {
    exists|i: int| 0 <= i < ps.len() && #[trigger] stationary_at(ps[i], pos)
}

/// Some piece of the other side than `side` stands still on `pos`.
pub open spec fn enemy_at(ps: Seq<Piece>, side: Side, pos: Position) -> bool {
    exists|i: int| 0 <= i < ps.len() && ps[i].side != side && #[trigger] stationary_at(ps[i], pos)
}

/// `i` is the first piece standing on `pos`.
pub open spec fn first_stationary_at(ps: Seq<Piece>, pos: Position, i: int) -> bool {
    &&& 0 <= i < ps.len()
    &&& stationary_at(ps[i], pos)
    &&& forall|j: int| 0 <= j < i ==> !#[trigger] stationary_at(ps[j], pos)
}

/// Every piece is well formed.
pub open spec fn pieces_wf(ps: Seq<Piece>) -> bool {
    forall|i: int| 0 <= i < ps.len() ==> #[trigger] ps[i].wf()
}

impl View for BoardState {
    type V = Seq<Piece>;

    open spec fn view(&self) -> Seq<Piece> {
        self.pieces@
    }
}

impl BoardState {
    pub open spec fn wf(&self) -> bool {
        pieces_wf(self@)
    }

    pub open spec fn no_castling(&self) -> bool {
        &&& !self.can_long_castle.white && !self.can_long_castle.black
        &&& !self.can_short_castle.white && !self.can_short_castle.black
    }

    /// An exact copy, for a search branch to mutate on its own.
    pub fn duplicate(&self) -> (r: Self)
        ensures
            r@ == self@,
            r.can_long_castle == self.can_long_castle,
            r.can_short_castle == self.can_short_castle,
    {
        let pieces = self.pieces.clone();
        assert(pieces@ =~= self.pieces@);
        BoardState {
            pieces,
            can_long_castle: self.can_long_castle,
            can_short_castle: self.can_short_castle,
        }
    }

    pub fn pieces(&self) -> (r: &Vec<Piece>)
        ensures
            r@ == self@,
    {
        &self.pieces
    }

    pub fn pieces_mut(&mut self) -> (r: &mut Vec<Piece>)
        ensures
            *r == old(self).pieces,
            final(self).pieces == *final(r),
            final(self).can_long_castle == old(self).can_long_castle,
            final(self).can_short_castle == old(self).can_short_castle,
    {
        &mut self.pieces
    }

    pub(crate) fn new_with_castling(pieces: Vec<Piece>, enable_castling: bool) -> (r: Self)
        ensures
            r@ == pieces@,
            r.can_long_castle == (CastleFlags { white: enable_castling, black: enable_castling }),
            r.can_short_castle == (CastleFlags { white: enable_castling, black: enable_castling }),
    {
        BoardState {
            pieces,
            can_long_castle: CastleFlags { white: enable_castling, black: enable_castling },
            can_short_castle: CastleFlags { white: enable_castling, black: enable_castling },
        }
    }

    /// Builds a board from its pieces, with castling off.
    pub fn from_pieces(pieces: Vec<Piece>) -> (r: Self)
        ensures
            r@ == pieces@,
            r.no_castling(),
    {
        Self::new_with_castling(pieces, false)
    }

    /// The first piece standing still on `pos`, by index.
    pub fn stationary_index(&self, pos: Position) -> (r: Option<usize>)
        ensures
            match r {
                Some(i) => first_stationary_at(self@, pos, i as int),
                None => !occupied(self@, pos),
            },
    {
        let mut i: usize = 0;
        while i < self.pieces.len()
            invariant
                i <= self@.len(),
                forall|j: int| 0 <= j < i ==> !#[trigger] stationary_at(self@[j], pos),
            decreases self@.len() - i,
        {
            let p = self.pieces[i];
            match p.state {
                PieceState::Stationary { position, .. } => {
                    if position == pos {
                        return Some(i);
                    }
                },
                PieceState::Moving { .. } => {},
            }
            i += 1;
        }
        None
    }

    /// The first piece standing still on `pos`.
    pub fn get_stationary_piece(&self, pos: Position) -> (r: Option<Piece>)
        ensures
            match r {
                Some(p) => exists|i: int| first_stationary_at(self@, pos, i) && self@[i] == p,
                None => !occupied(self@, pos),
            },
    {
        match self.stationary_index(pos) {
            Some(i) => Some(self.pieces[i]),
            None => None,
        }
    }

    /// Whether a piece of the other side than `side` stands still on `pos`.
    pub fn has_enemy_at(&self, side: Side, pos: Position) -> (r: bool)
        ensures
            r == enemy_at(self@, side, pos),
    {
        let mut i: usize = 0;
        while i < self.pieces.len()
            invariant
                i <= self@.len(),
                forall|j: int|
                    0 <= j < i ==> !(self@[j].side != side && #[trigger] stationary_at(
                        self@[j],
                        pos,
                    )),
            decreases self@.len() - i,
        {
            let p = self.pieces[i];
            if p.side != side {
                if let PieceState::Stationary { position, .. } = p.state {
                    if position == pos {
                        assert(stationary_at(self@[i as int], pos));
                        return true;
                    }
                }
            }
            i += 1;
        }
        false
    }

    /// Whether no piece of `side` stands on `destination` or is on its way there.
    pub fn is_valid_destination(&self, side: Side, destination: Position) -> (r: bool)
        ensures
            r == valid_destination(self@, side, destination),
    {
        let mut i: usize = 0;
        while i < self.pieces.len()
            invariant
                i <= self@.len(),
                forall|j: int|
                    0 <= j < i ==> !(self@[j].side == side && #[trigger] claims(
                        self@[j],
                        destination,
                    )),
            decreases self@.len() - i,
        {
            let p = self.pieces[i];
            if p.side == side {
                let hit = match p.state {
                    PieceState::Stationary { position, .. } => position == destination,
                    PieceState::Moving { target, .. } => target.target == destination,
                };
                if hit {
                    assert(claims(self@[i as int], destination));
                    return false;
                }
            }
            i += 1;
        }
        true
    }
}

/// Two pieces stand still on the same square.
pub open spec fn overlapping(ps: Seq<Piece>) -> bool {
    exists|i: int, j: int|
        0 <= i < j < ps.len() && #[trigger] ps[i].state is Stationary && #[trigger] ps[j].state is Stationary
            && ps[i].state->Stationary_position == ps[j].state->Stationary_position
}

/// Relies on `itertools::Itertools::tuple_combinations`: every pair of
/// pieces at two positions `i < j`, and nothing else.
#[verifier::external_body]
fn piece_pairs(ps: &Vec<Piece>) -> (r: Vec<(Piece, Piece)>)
    ensures
        forall|k: int| 0 <= k < r@.len() ==> pair_at(ps@, #[trigger] r@[k]),
        forall|i: int, j: int| 0 <= i < j < ps@.len() ==> r@.contains((#[trigger] ps@[i], #[trigger] ps@[j])),
{
    ps.iter().cloned().tuple_combinations().collect()
}

/// `pair` is the pair of pieces at two positions `i < j` of `ps`.
pub open spec fn pair_at(ps: Seq<Piece>, pair: (Piece, Piece)) -> bool {
    exists|i: int, j: int| 0 <= i < j < ps.len() && pair == (ps[i], ps[j])
}

/// Both pieces stand still on the same square.
pub open spec fn same_square(a: Piece, b: Piece) -> bool {
    a.state is Stationary && b.state is Stationary && a.state->Stationary_position
        == b.state->Stationary_position
}

impl BoardState {
    /// Whether two pieces stand still on the same square, which no sequence
    /// of legal play produces.
    pub fn has_overlapping_pieces(&self) -> (r: bool)
        ensures
            r == overlapping(self@),
    {
        let pairs = piece_pairs(&self.pieces);
        let mut k: usize = 0;
        while k < pairs.len()
            invariant
                k <= pairs@.len(),
                forall|t: int| 0 <= t < pairs@.len() ==> pair_at(self@, #[trigger] pairs@[t]),
                forall|t: int| 0 <= t < k ==> !same_square((#[trigger] pairs@[t]).0, pairs@[t].1),
            decreases pairs@.len() - k,
        {
            let (a, b) = pairs[k];
            assert(pairs@[k as int] == (a, b));
            let hit = match (a.state, b.state) {
                (PieceState::Stationary { position: pa, .. }, PieceState::Stationary { position: pb, .. }) => pa == pb,
                _ => false,
            };
            if hit {
                proof {
                    assert(pair_at(self@, pairs@[k as int]));
                    let (i, j) = choose|i: int, j: int| 0 <= i < j < self@.len() && pairs@[k as int] == (self@[i], self@[j]);
                    assert(self@[i].state is Stationary && self@[j].state is Stationary);
                }
                return true;
            }
            k += 1;
        }
        proof {
            if overlapping(self@) {
                let (i, j) = choose|i: int, j: int|
                    0 <= i < j < self@.len() && self@[i].state is Stationary && self@[j].state is Stationary
                        && self@[i].state->Stationary_position == self@[j].state->Stationary_position;
                assert(pairs@.contains((self@[i], self@[j])));
                let t = choose|t: int| 0 <= t < pairs@.len() && pairs@[t] == (self@[i], self@[j]);
                assert(!same_square(pairs@[t].0, pairs@[t].1));
            }
        }
        false
    }
}

} // verus!
