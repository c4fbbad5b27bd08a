//! Random boards, for training data and tests.
use vstd::prelude::*;
use rand::seq::SliceRandom;
use rand::Rng;
use crate::board::{BoardMove, BoardState};
use crate::movegen::all_moves;
use crate::piece::{Piece, PieceKind, PieceState, Side};
use crate::position::Position;

verus! {

/// Relies on `rand::thread_rng` and `Rng::gen_range`: a number below `n`.
#[verifier::external_body]
fn random_below(n: usize) -> (r: usize)
    requires
        n > 0,
    ensures
        r < n,
{
    rand::thread_rng().gen_range(0..n)
}

/// Relies on `rand::seq::SliceRandom::choose_multiple`: `amount` items, or
/// all of them if fewer, taken from distinct places of `pool`.
#[verifier::external_body]
fn choose_kinds(pool: &Vec<PieceKind>, amount: usize) -> (r: Vec<PieceKind>)
    ensures
        r@.len() == if amount < pool@.len() { amount as int } else { pool@.len() as int },
        r@.to_multiset().subset_of(pool@.to_multiset()),
{
    pool.choose_multiple(&mut rand::thread_rng(), amount).cloned().collect()
}

/// A piece may be dropped on `pos`: pawns never on the first or last row.
pub open spec fn allowed(kind: PieceKind, pos: Position) -> bool {
    pos.on_board() && (kind == PieceKind::Pawn ==> 1 <= pos.y <= 6)
}

/// The piece is at rest with no cooldown on a square its kind allows.
pub open spec fn dropped(p: Piece) -> bool {
    p.state matches PieceState::Stationary { position, cooldown } && cooldown == 0 && allowed(
        p.kind,
        position,
    )
}

/// The square of index `t` in reading order.
pub open spec fn index_square(t: int) -> Position {
    Position { x: (t % 8) as u32, y: (t / 8) as u32 }
}

pub open spec fn square_index(p: Piece) -> int {
    p.state->Stationary_position.y * 8 + p.state->Stationary_position.x
}

/// The square is allowed for `kind` and no piece of `out` stands on it.
pub open spec fn room_at(out: Seq<Piece>, kind: PieceKind, t: int) -> bool {
    &&& 0 <= t < 64
    &&& allowed(kind, index_square(t))
    &&& forall|j: int| 0 <= j < out.len() ==> out[j].state->Stationary_position != index_square(t)
}

/// Fewer than 48 pieces leave some allowed square free.
proof fn lemma_room(out: Seq<Piece>, kind: PieceKind)
    requires
        out.len() < 48,
    ensures
        exists|t: int| room_at(out, kind, t),
{
    if !(exists|t: int| room_at(out, kind, t)) {
        let idxs = out.map_values(|p: Piece| square_index(p));
        let occupied = idxs.to_set();
        idxs.lemma_cardinality_of_set();
        vstd::set_lib::lemma_int_range(8, 56);
        let rows = vstd::set_lib::set_int_range(8, 56);
        assert forall|k: int| rows.contains(k) implies occupied.contains(k) by {
            let pos = index_square(k);
            assert(allowed(kind, pos));
            assert(!room_at(out, kind, k));
            let j = choose|j: int| 0 <= j < out.len() && out[j].state->Stationary_position == pos;
            assert(idxs[j] == square_index(out[j]));
            assert(square_index(out[j]) == k);
            assert(idxs.contains(k));
        }
        vstd::set_lib::lemma_len_subset(rows, occupied);
    }
}

/// What holds of a random board built from `spec_pieces`: it holds the
/// first pieces of the list, in order, each at rest with no cooldown on a
/// square of its own that its kind allows.
pub open spec fn placed(ps: Seq<Piece>, spec_pieces: Seq<(Side, PieceKind)>) -> bool {
    &&& ps.len() <= spec_pieces.len()
    &&& forall|i: int|
        0 <= i < ps.len() ==> {
            &&& (#[trigger] ps[i]).side == spec_pieces[i].0
            &&& ps[i].kind == spec_pieces[i].1
            &&& dropped(ps[i])
        }
    &&& forall|i: int, j: int|
        0 <= i < j < ps.len() ==> (#[trigger] ps[i]).state->Stationary_position
            != (#[trigger] ps[j]).state->Stationary_position
}

impl BoardState {
    /// Drops the pieces one by one on random free squares, pawns off the
    /// first and last rows. Stops early only if no square is left.
    pub fn generate_random_board(pieces: Vec<(Side, PieceKind)>) -> (r: Self)
        ensures
            placed(r@, pieces@),
            pieces@.len() <= 48 ==> r@.len() == pieces@.len(),
            r.wf(),
            r.no_castling(),
    {
        let mut out: Vec<Piece> = Vec::new();
        let mut i: usize = 0;
        let mut full = false;
        while i < pieces.len() && !full
            invariant
                i <= pieces@.len(),
                out@.len() == i,
                placed(out@, pieces@),
                full ==> pieces@.len() > 48,
            decreases pieces@.len() - i + if full { 0int } else { 1int },
        {
            let (side, kind) = pieces[i];
            let mut free: Vec<Position> = Vec::new();
            let mut sq: u32 = 0;
            while sq < 64
                invariant
                    sq <= 64,
                    placed(out@, pieces@),
                    forall|k: int|
                        0 <= k < free@.len() ==> allowed(kind, #[trigger] free@[k]) && forall|j: int|
                            0 <= j < out@.len() ==> out@[j].state->Stationary_position != free@[k],
                    forall|t: int|
                        0 <= t < sq && allowed(kind, #[trigger] index_square(t)) && (forall|j: int|
                            0 <= j < out@.len() ==> out@[j].state->Stationary_position != index_square(t))
                            ==> free@.contains(index_square(t)),
                decreases 64 - sq,
            {
                let pos = Position::new(sq % 8, sq / 8);
                let ok_row = kind != PieceKind::Pawn || (pos.y >= 1 && pos.y <= 6);
                let mut taken = false;
                let mut j: usize = 0;
                while j < out.len()
                    invariant
                        j <= out@.len(),
                        placed(out@, pieces@),
                        !taken ==> forall|t: int| 0 <= t < j ==> out@[t].state->Stationary_position != pos,
                        taken ==> exists|t: int| 0 <= t < j && out@[t].state->Stationary_position == pos,
                    decreases out@.len() - j,
                {
                    if let PieceState::Stationary { position, .. } = out[j].state {
                        if position == pos {
                            taken = true;
                        }
                    }
                    j += 1;
                }
                assert(pos == index_square(sq as int));
                let ghost old_free = free@;
                if ok_row && !taken {
                    free.push(pos);
                }
                proof {
                    assert forall|t: int| 0 <= t < sq + 1 && allowed(kind, #[trigger] index_square(t)) && (forall|j: int|
                        0 <= j < out@.len() ==> out@[j].state->Stationary_position != index_square(t))
                        implies free@.contains(index_square(t)) by {
                        if t < sq {
                            assert(old_free.contains(index_square(t)));
                            let k = choose|k: int| 0 <= k < old_free.len() && old_free[k] == index_square(t);
                            assert(free@[k] == old_free[k]);
                        } else {
                            assert(free@[free@.len() - 1] == pos);
                        }
                    }
                }
                sq += 1;
            }
            if free.len() == 0 {
                proof {
                    if pieces@.len() <= 48 {
                        lemma_room(out@, kind);
                        let t = choose|t: int| room_at(out@, kind, t);
                        assert(free@.contains(index_square(t)));
                    }
                }
                full = true;
            } else {
                let pos = free[random_below(free.len())];
                let ghost before = out@;
                out.push(Piece { side, kind, state: PieceState::Stationary { position: pos, cooldown: 0 } });
                proof {
                    assert forall|a: int, b: int| 0 <= a < b < out@.len() implies (#[trigger] out@[a]).state->Stationary_position
                        != (#[trigger] out@[b]).state->Stationary_position by {
                        if b < before.len() {
                            assert(out@[a] == before[a] && out@[b] == before[b]);
                        }
                    }
                }
                i += 1;
            }
        }
        proof {
            assert forall|k: int| 0 <= k < out@.len() implies (#[trigger] out@[k]).wf() by {}
        }
        Self::new_with_castling(out, false)
    }

    /// A random board with `num_pieces_per_side` pieces a side: each side's
    /// king and a random pick from eight pawns, two knights, two bishops,
    /// two rooks and a queen.
    pub fn generate_random_board_with(num_pieces_per_side: usize) -> (r: Self)
        requires
            1 <= num_pieces_per_side <= 16,
        ensures
            r@.len() == 2 * num_pieces_per_side,
            forall|i: int| 0 <= i < num_pieces_per_side ==> (#[trigger] r@[i]).side == Side::White,
            forall|i: int|
                num_pieces_per_side <= i < 2 * num_pieces_per_side ==> (#[trigger] r@[i]).side
                    == Side::Black,
            r@[num_pieces_per_side - 1].kind == PieceKind::King,
            r@[2 * num_pieces_per_side - 1].kind == PieceKind::King,
            r.wf(),
            r.no_castling(),
            forall|i: int| 0 <= i < r@.len() ==> dropped(#[trigger] r@[i]),
    {
        let pool = vec![
            PieceKind::Pawn, PieceKind::Pawn, PieceKind::Pawn, PieceKind::Pawn,
            PieceKind::Pawn, PieceKind::Pawn, PieceKind::Pawn, PieceKind::Pawn,
            PieceKind::Knight, PieceKind::Knight, PieceKind::Bishop, PieceKind::Bishop,
            PieceKind::Rook, PieceKind::Rook, PieceKind::Queen,
        ];
        let mut pieces: Vec<(Side, PieceKind)> = Vec::new();
        let mut s: usize = 0;
        while s < 2
            invariant
                s <= 2,
                1 <= num_pieces_per_side <= 16,
                pool@.len() == 15,
                pieces@.len() == s * num_pieces_per_side,
                forall|t: int|
                    0 <= t < pieces@.len() ==> (#[trigger] pieces@[t]).0 == if t < num_pieces_per_side {
                        Side::White
                    } else {
                        Side::Black
                    },
                s >= 1 ==> pieces@[num_pieces_per_side - 1].1 == PieceKind::King,
                s >= 2 ==> pieces@[2 * num_pieces_per_side - 1].1 == PieceKind::King,
            decreases 2 - s,
        {
            let side = if s == 0 { Side::White } else { Side::Black };
            let picked = choose_kinds(&pool, num_pieces_per_side - 1);
            let ghost before = pieces@.len();
            let mut k: usize = 0;
            while k < picked.len()
                invariant
                    k <= picked@.len(),
                    picked@.len() == num_pieces_per_side - 1,
                    pieces@.len() == before + k,
                    before == s * num_pieces_per_side,
                    s < 2,
                    side == if s == 0 { Side::White } else { Side::Black },
                    forall|t: int|
                        0 <= t < pieces@.len() ==> (#[trigger] pieces@[t]).0 == if t < num_pieces_per_side {
                            Side::White
                        } else {
                            Side::Black
                        },
                    s >= 1 ==> pieces@[num_pieces_per_side - 1].1 == PieceKind::King,
                decreases picked@.len() - k,
            {
                pieces.push((side, picked[k]));
                k += 1;
            }
            pieces.push((side, PieceKind::King));
            s += 1;
        }
        assert(pieces@.len() == 2 * num_pieces_per_side);
        let r = Self::generate_random_board(pieces);
        assert(forall|i: int| 0 <= i < r@.len() ==> dropped(#[trigger] r@[i]));
        r
    }
}

/// The move at index `i` of the moves `side` may start.
pub fn move_at(board: &BoardState, side: Side, i: usize) -> (r: BoardMove)
    requires
        board.wf(),
        i < all_moves(board@, side).len(),
    ensures
        r == all_moves(board@, side)[i as int],
{
    let moves = board.get_all_possible_moves(side);
    moves[i]
}

/// The number of moves `side` may start, the pass included.
pub fn move_count(board: &BoardState, side: Side) -> (r: usize)
    requires
        board.wf(),
    ensures
        r == all_moves(board@, side).len(),
{
    board.get_all_possible_moves(side).len()
}

/// A move drawn at random among those `side` may start, the pass included:
/// the move at a random index of `all_moves`.
pub fn random_move(board: &BoardState, side: Side) -> (r: BoardMove)
    requires
        board.wf(),
    ensures
        exists|i: int| 0 <= i < all_moves(board@, side).len() && r == all_moves(board@, side)[i],
{
    let n = move_count(board, side);
    let i = random_below(n);
    move_at(board, side, i)
}

} // verus!
