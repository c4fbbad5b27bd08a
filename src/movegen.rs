//! The moves each piece may start, and the check of a single move.
use vstd::prelude::*;
use crate::board::{enemy_at, occupied, valid_destination, BoardMove, BoardState};
use crate::piece::{forward, forward_y, pawn_start_row, Piece, PieceKind, PieceState, Side};
use crate::position::{Delta, Position, BOARD_SIZE};

verus! {

pub open spec fn on_grid(x: int, y: int) -> bool {
    0 <= x < BOARD_SIZE && 0 <= y < BOARD_SIZE
}

pub open spec fn square(x: int, y: int) -> Position {
    Position { x: x as u32, y: y as u32 }
}

/// `pos` is on the board, and a piece of `side` may move there without taking.
pub open spec fn free_for(ps: Seq<Piece>, side: Side, x: int, y: int) -> bool {
    on_grid(x, y) && valid_destination(ps, side, square(x, y)) && !occupied(ps, square(x, y))
}

/// `pos` is on the board, and a pawn of `side` may take there: an enemy stands on it.
pub open spec fn takeable_for(ps: Seq<Piece>, side: Side, x: int, y: int) -> bool {
    on_grid(x, y) && valid_destination(ps, side, square(x, y)) && occupied(ps, square(x, y))
}

/// A pawn's destinations, in order: the double step from the starting row
/// (both squares free), the single step (free), then the two diagonal takes.
pub open spec fn pawn_targets(ps: Seq<Piece>, side: Side, from: Position) -> Seq<Position> {
    let f = forward(side);
    let (x, y) = (from.x as int, from.y as int);
    let double = if from.y == pawn_start_row(side) && free_for(ps, side, x, y + f) && free_for(
        ps,
        side,
        x,
        y + 2 * f,
    ) {
        seq![square(x, y + 2 * f)]
    } else {
        Seq::empty()
    };
    let single = if free_for(ps, side, x, y + f) {
        seq![square(x, y + f)]
    } else {
        Seq::empty()
    };
    let left = if takeable_for(ps, side, x - 1, y + f) {
        seq![square(x - 1, y + f)]
    } else {
        Seq::empty()
    };
    let right = if takeable_for(ps, side, x + 1, y + f) {
        seq![square(x + 1, y + f)]
    } else {
        Seq::empty()
    };
    double + single + left + right
}

/// The square one jump `d` away, if a piece of `side` may go there.
pub open spec fn jump_target(ps: Seq<Piece>, side: Side, from: Position, d: (int, int)) -> Seq<
    Position,
> {
    let (x, y) = (from.x + d.0, from.y + d.1);
    if on_grid(x, y) && valid_destination(ps, side, square(x, y)) {
        seq![square(x, y)]
    } else {
        Seq::empty()
    }
}

pub open spec fn jump_targets(ps: Seq<Piece>, side: Side, from: Position, ds: Seq<(int, int)>) -> Seq<
    Position,
>
    decreases ds.len(),
{
    if ds.len() == 0 {
        Seq::empty()
    } else {
        jump_targets(ps, side, from, ds.drop_last()) + jump_target(ps, side, from, ds.last())
    }
}

/// The squares a sliding piece of `side` reaches from `from` along `d`: it
/// goes on through squares nobody holds, stops before a square its own side
/// holds, and stops on a square where an enemy stands.
pub open spec fn ray(ps: Seq<Piece>, side: Side, from: Position, d: (int, int), fuel: nat) -> Seq<
    Position,
>
    decreases fuel,
{
    let (x, y) = (from.x + d.0, from.y + d.1);
    if fuel == 0 || !on_grid(x, y) || !valid_destination(ps, side, square(x, y)) {
        Seq::empty()
    } else if enemy_at(ps, side, square(x, y)) {
        seq![square(x, y)]
    } else {
        seq![square(x, y)] + ray(ps, side, square(x, y), d, (fuel - 1) as nat)
    }
}

pub open spec fn ray_targets(ps: Seq<Piece>, side: Side, from: Position, ds: Seq<(int, int)>) -> Seq<
    Position,
>
    decreases ds.len(),
{
    if ds.len() == 0 {
        Seq::empty()
    } else {
        ray_targets(ps, side, from, ds.drop_last()) + ray(
            ps,
            side,
            from,
            ds.last(),
            BOARD_SIZE as nat,
        )
    }
}

pub open spec fn knight_dirs() -> Seq<(int, int)> {
    seq![(-2, -1), (-2, 1), (2, -1), (2, 1), (-1, -2), (-1, 2), (1, -2), (1, 2)]
}

pub open spec fn king_dirs() -> Seq<(int, int)> {
    seq![(-1, -1), (-1, 0), (-1, 1), (0, -1), (0, 1), (1, -1), (1, 0), (1, 1)]
}

pub open spec fn bishop_dirs() -> Seq<(int, int)> {
    seq![(-1, -1), (-1, 1), (1, -1), (1, 1)]
}

pub open spec fn rook_dirs() -> Seq<(int, int)> {
    seq![(-1, 0), (1, 0), (0, -1), (0, 1)]
}

pub open spec fn queen_dirs() -> Seq<(int, int)> {
    bishop_dirs() + rook_dirs()
}

/// Where `piece` may be sent: nowhere unless it is at rest with no cooldown.
pub open spec fn targets(ps: Seq<Piece>, piece: Piece) -> Seq<Position> {
    match piece.state {
        PieceState::Stationary { position, cooldown } => if cooldown != 0 {
            Seq::empty()
        } else {
            match piece.kind {
                PieceKind::Pawn => pawn_targets(ps, piece.side, position),
                PieceKind::Knight => jump_targets(ps, piece.side, position, knight_dirs()),
                PieceKind::King => jump_targets(ps, piece.side, position, king_dirs()),
                PieceKind::Bishop => ray_targets(ps, piece.side, position, bishop_dirs()),
                PieceKind::Rook => ray_targets(ps, piece.side, position, rook_dirs()),
                PieceKind::Queen => ray_targets(ps, piece.side, position, queen_dirs()),
            }
        },
        PieceState::Moving { .. } => Seq::empty(),
    }
}

pub open spec fn move_to(piece: Piece) -> spec_fn(Position) -> BoardMove {
    |t: Position| BoardMove::Normal { piece, target: t }
}

/// The moves `piece` may start.
pub open spec fn moves_for(ps: Seq<Piece>, piece: Piece) -> Seq<BoardMove> {
    targets(ps, piece).map_values(move_to(piece))
}

/// The moves of the first `k` pieces that belong to `side`, in board order.
pub open spec fn moves_of_first(ps: Seq<Piece>, side: Side, k: int) -> Seq<BoardMove>
    decreases k,
{
    if k <= 0 {
        Seq::empty()
    } else {
        moves_of_first(ps, side, k - 1) + if ps[k - 1].side == side {
            moves_for(ps, ps[k - 1])
        } else {
            Seq::empty()
        }
    }
}

/// Every move `side` may start, piece by piece in board order, then the pass.
pub open spec fn all_moves(ps: Seq<Piece>, side: Side) -> Seq<BoardMove> {
    moves_of_first(ps, side, ps.len() as int) + seq![BoardMove::Pass(side)]
}

proof fn lemma_map_concat(a: Seq<Position>, b: Seq<Position>, f: spec_fn(Position) -> BoardMove)
    ensures
        (a + b).map_values(f) == a.map_values(f) + b.map_values(f),
{
    assert((a + b).map_values(f) =~= a.map_values(f) + b.map_values(f));
}

fn knight_deltas() -> (r: Vec<Delta>)
    ensures
        r@.len() == knight_dirs().len(),
        forall|i: int| 0 <= i < r@.len() ==> (r@[i].x as int, r@[i].y as int) == knight_dirs()[i],
{
    vec![
        Delta::new(-2, -1),
        Delta::new(-2, 1),
        Delta::new(2, -1),
        Delta::new(2, 1),
        Delta::new(-1, -2),
        Delta::new(-1, 2),
        Delta::new(1, -2),
        Delta::new(1, 2),
    ]
}

fn king_deltas() -> (r: Vec<Delta>)
    ensures
        r@.len() == king_dirs().len(),
        forall|i: int| 0 <= i < r@.len() ==> (r@[i].x as int, r@[i].y as int) == king_dirs()[i],
{
    vec![
        Delta::new(-1, -1),
        Delta::new(-1, 0),
        Delta::new(-1, 1),
        Delta::new(0, -1),
        Delta::new(0, 1),
        Delta::new(1, -1),
        Delta::new(1, 0),
        Delta::new(1, 1),
    ]
}

fn bishop_deltas() -> (r: Vec<Delta>)
    ensures
        r@.len() == bishop_dirs().len(),
        forall|i: int| 0 <= i < r@.len() ==> (r@[i].x as int, r@[i].y as int) == bishop_dirs()[i],
        forall|i: int| 0 <= i < r@.len() ==> -1 <= #[trigger] r@[i].x <= 1 && -1 <= r@[i].y <= 1,
{
    vec![Delta::new(-1, -1), Delta::new(-1, 1), Delta::new(1, -1), Delta::new(1, 1)]
}

fn rook_deltas() -> (r: Vec<Delta>)
    ensures
        r@.len() == rook_dirs().len(),
        forall|i: int| 0 <= i < r@.len() ==> (r@[i].x as int, r@[i].y as int) == rook_dirs()[i],
        forall|i: int| 0 <= i < r@.len() ==> -1 <= #[trigger] r@[i].x <= 1 && -1 <= r@[i].y <= 1,
{
    vec![Delta::new(-1, 0), Delta::new(1, 0), Delta::new(0, -1), Delta::new(0, 1)]
}

fn queen_deltas() -> (r: Vec<Delta>)
    ensures
        r@.len() == queen_dirs().len(),
        forall|i: int| 0 <= i < r@.len() ==> (r@[i].x as int, r@[i].y as int) == queen_dirs()[i],
        forall|i: int| 0 <= i < r@.len() ==> -1 <= #[trigger] r@[i].x <= 1 && -1 <= r@[i].y <= 1,
{
    let mut all = bishop_deltas();
    let straight = rook_deltas();
    let mut i: usize = 0;
    while i < straight.len()
        invariant
            i <= straight@.len(),
            straight@.len() == 4,
            all@.len() == 4 + i,
            forall|j: int|
                0 <= j < 4 + i ==> (all@[j].x as int, all@[j].y as int) == queen_dirs()[j],
            forall|j: int|
                0 <= j < 4 ==> (straight@[j].x as int, straight@[j].y as int) == rook_dirs()[j],
            forall|j: int| 0 <= j < all@.len() ==> -1 <= #[trigger] all@[j].x <= 1 && -1 <= all@[j].y <= 1,
            forall|j: int| 0 <= j < straight@.len() ==> -1 <= #[trigger] straight@[j].x <= 1 && -1 <= straight@[j].y <= 1,
        decreases straight@.len() - i,
    {
        all.push(straight[i]);
        i += 1;
    }
    all
}

impl BoardState {
    /// Whether a piece of `side` may step to `(x, y)` without taking.
    fn is_free_for(&self, side: Side, x: i64, y: i64) -> (r: bool)
        ensures
            r == free_for(self@, side, x as int, y as int),
    {
        if 0 <= x && x < 8 && 0 <= y && y < 8 {
            let pos = Position::new(x as u32, y as u32);
            self.is_valid_destination(side, pos) && self.stationary_index(pos).is_none()
        } else {
            false
        }
    }

    /// Whether a pawn of `side` may take on `(x, y)`.
    fn is_takeable_for(&self, side: Side, x: i64, y: i64) -> (r: bool)
        ensures
            r == takeable_for(self@, side, x as int, y as int),
    {
        if 0 <= x && x < 8 && 0 <= y && y < 8 {
            let pos = Position::new(x as u32, y as u32);
            self.is_valid_destination(side, pos) && self.stationary_index(pos).is_some()
        } else {
            false
        }
    }

    /// The one-square sequence `[(x, y)]` when `cond` holds, else nothing.
    spec fn maybe_square(cond: bool, x: int, y: int) -> Seq<Position> {
        if cond {
            seq![square(x, y)]
        } else {
            Seq::empty()
        }
    }

    fn push_if(piece: &Piece, cond: bool, x: i64, y: i64, moves: &mut Vec<BoardMove>)
        requires
            cond ==> on_grid(x as int, y as int),
        ensures
            final(moves)@ == old(moves)@ + Self::maybe_square(cond, x as int, y as int).map_values(
                move_to(*piece),
            ),
    {
        if cond {
            moves.push(BoardMove::Normal { piece: *piece, target: Position::new(x as u32, y as u32) });
            assert(moves@ =~= old(moves)@ + Self::maybe_square(cond, x as int, y as int).map_values(
                move_to(*piece),
            ));
        } else {
            assert(moves@ =~= old(moves)@ + Self::maybe_square(cond, x as int, y as int).map_values(
                move_to(*piece),
            ));
        }
    }

    fn add_pawn_moves(&self, piece: &Piece, from: Position, moves: &mut Vec<BoardMove>)
        requires
            from.on_board(),
        ensures
            final(moves)@ == old(moves)@ + pawn_targets(self@, piece.side, from).map_values(
                move_to(*piece),
            ),
    {
        let ghost mk = move_to(*piece);
        let side = piece.side;
        let f = forward_y(side) as i64;
        let (x, y) = (from.x as i64, from.y as i64);
        let start_row: u32 = match side {
            Side::White => 6,
            Side::Black => 1,
        };
        let ghost before = moves@;
        let c1 = from.y == start_row && self.is_free_for(side, x, y + f) && self.is_free_for(
            side,
            x,
            y + 2 * f,
        );
        Self::push_if(piece, c1, x, y + 2 * f, moves);
        let ghost m1 = moves@;
        let c2 = self.is_free_for(side, x, y + f);
        Self::push_if(piece, c2, x, y + f, moves);
        let ghost m2 = moves@;
        let c3 = self.is_takeable_for(side, x - 1, y + f);
        Self::push_if(piece, c3, x - 1, y + f, moves);
        let ghost m3 = moves@;
        let c4 = self.is_takeable_for(side, x + 1, y + f);
        Self::push_if(piece, c4, x + 1, y + f, moves);
        proof {
            let (gx, gy, gf) = (x as int, y as int, forward(side));
            let double = Self::maybe_square(c1, gx, gy + 2 * gf);
            let single = Self::maybe_square(c2, gx, gy + gf);
            let left = Self::maybe_square(c3, gx - 1, gy + gf);
            let right = Self::maybe_square(c4, gx + 1, gy + gf);
            lemma_map_concat(double, single, mk);
            lemma_map_concat(double + single, left, mk);
            lemma_map_concat(double + single + left, right, mk);
            assert(moves@ =~= before + (double + single + left + right).map_values(mk));
            assert(double + single + left + right == pawn_targets(self@, side, from));
        }
    }

    fn add_jump_moves(
        &self,
        piece: &Piece,
        from: Position,
        deltas: &Vec<Delta>,
        moves: &mut Vec<BoardMove>,
        Ghost(ds): Ghost<Seq<(int, int)>>,
    )
        requires
            from.on_board(),
            deltas@.len() == ds.len(),
            forall|i: int|
                0 <= i < deltas@.len() ==> (deltas@[i].x as int, deltas@[i].y as int) == ds[i],
        ensures
            final(moves)@ == old(moves)@ + jump_targets(self@, piece.side, from, ds).map_values(
                move_to(*piece),
            ),
    {
        let ghost mk = move_to(*piece);
        let ghost before = moves@;
        let mut i: usize = 0;
        while i < deltas.len()
            invariant
                i <= deltas@.len(),
                deltas@.len() == ds.len(),
                forall|j: int|
                    0 <= j < deltas@.len() ==> (deltas@[j].x as int, deltas@[j].y as int) == ds[j],
                from.on_board(),
                mk == move_to(*piece),
                moves@ == before + jump_targets(self@, piece.side, from, ds.take(i as int)).map_values(
                    mk,
                ),
            decreases deltas@.len() - i,
        {
            let d = deltas[i];
            let ghost prev = moves@;
            match from.offset(d) {
                Some(pos) => {
                    if self.is_valid_destination(piece.side, pos) {
                        moves.push(BoardMove::Normal { piece: *piece, target: pos });
                    }
                },
                None => {},
            }
            proof {
                let one = jump_target(self@, piece.side, from, ds[i as int]);
                assert(ds.take(i + 1).drop_last() =~= ds.take(i as int));
                assert(ds.take(i + 1).last() == ds[i as int]);
                lemma_map_concat(
                    jump_targets(self@, piece.side, from, ds.take(i as int)),
                    one,
                    mk,
                );
                assert(moves@ =~= prev + one.map_values(mk));
            }
            i += 1;
        }
        assert(ds.take(ds.len() as int) =~= ds);
    }

    fn add_ray_moves(
        &self,
        piece: &Piece,
        from: Position,
        d: Delta,
        moves: &mut Vec<BoardMove>,
    )
        requires
            from.on_board(),
            -1 <= d.x <= 1,
            -1 <= d.y <= 1,
        ensures
            final(moves)@ == old(moves)@ + ray(self@, piece.side, from, (d.x as int, d.y as int), BOARD_SIZE as nat).map_values(
                move_to(*piece),
            ),
    {
        let ghost mk = move_to(*piece);
        let ghost dd = (d.x as int, d.y as int);
        let ghost goal = old(moves)@ + ray(self@, piece.side, from, dd, BOARD_SIZE as nat).map_values(mk);
        let mut cur = from;
        let mut fuel: usize = BOARD_SIZE;
        while fuel > 0
            invariant
                cur.on_board(),
                fuel <= BOARD_SIZE,
                dd == (d.x as int, d.y as int),
                mk == move_to(*piece),
                goal == old(moves)@ + ray(self@, piece.side, from, dd, BOARD_SIZE as nat).map_values(mk),
                goal == moves@ + ray(self@, piece.side, cur, dd, fuel as nat).map_values(mk),
            decreases fuel,
        {
            let ghost r = ray(self@, piece.side, cur, dd, fuel as nat);
            match cur.offset(d) {
                Some(next) => {
                    if !self.is_valid_destination(piece.side, next) {
                        assert(r =~= Seq::<Position>::empty());
                        assert(goal =~= moves@);
                        return;
                    }
                    moves.push(BoardMove::Normal { piece: *piece, target: next });
                    if self.has_enemy_at(piece.side, next) {
                        assert(r =~= seq![next]);
                        assert(goal =~= moves@);
                        return;
                    }
                    proof {
                        let rest = ray(self@, piece.side, next, dd, (fuel - 1) as nat);
                        assert(next == square(cur.x + dd.0, cur.y + dd.1));
                        assert(r =~= seq![next] + rest);
                        lemma_map_concat(seq![next], rest, mk);
                        assert(seq![next].map_values(mk) =~= seq![mk(next)]);
                    }
                    cur = next;
                    fuel -= 1;
                },
                None => {
                    assert(r =~= Seq::<Position>::empty());
                    assert(goal =~= moves@);
                    return;
                },
            }
        }
        assert(ray(self@, piece.side, cur, dd, 0) =~= Seq::<Position>::empty());
        assert(goal =~= moves@);
    }

    fn add_slider_moves(
        &self,
        piece: &Piece,
        from: Position,
        deltas: &Vec<Delta>,
        moves: &mut Vec<BoardMove>,
        Ghost(ds): Ghost<Seq<(int, int)>>,
    )
        requires
            from.on_board(),
            deltas@.len() == ds.len(),
            forall|i: int|
                0 <= i < deltas@.len() ==> (deltas@[i].x as int, deltas@[i].y as int) == ds[i],
            forall|i: int| 0 <= i < deltas@.len() ==> -1 <= #[trigger] deltas@[i].x <= 1 && -1 <= deltas@[i].y <= 1,
        ensures
            final(moves)@ == old(moves)@ + ray_targets(self@, piece.side, from, ds).map_values(
                move_to(*piece),
            ),
    {
        let ghost mk = move_to(*piece);
        let ghost before = moves@;
        let mut i: usize = 0;
        while i < deltas.len()
            invariant
                i <= deltas@.len(),
                deltas@.len() == ds.len(),
                forall|j: int|
                    0 <= j < deltas@.len() ==> (deltas@[j].x as int, deltas@[j].y as int) == ds[j],
                forall|j: int| 0 <= j < deltas@.len() ==> -1 <= #[trigger] deltas@[j].x <= 1 && -1 <= deltas@[j].y <= 1,
                from.on_board(),
                mk == move_to(*piece),
                moves@ == before + ray_targets(self@, piece.side, from, ds.take(i as int)).map_values(
                    mk,
                ),
            decreases deltas@.len() - i,
        {
            let ghost prev = moves@;
            self.add_ray_moves(piece, from, deltas[i], moves);
            proof {
                let one = ray(self@, piece.side, from, ds[i as int], BOARD_SIZE as nat);
                assert(ds.take(i + 1).drop_last() =~= ds.take(i as int));
                assert(ds.take(i + 1).last() == ds[i as int]);
                lemma_map_concat(
                    ray_targets(self@, piece.side, from, ds.take(i as int)),
                    one,
                    mk,
                );
            }
            i += 1;
        }
        assert(ds.take(ds.len() as int) =~= ds);
    }

    /// Appends the moves `piece` may start. A piece in transit or cooling
    /// down adds none.
    pub fn add_possible_moves_for_piece(&self, piece: &Piece, moves: &mut Vec<BoardMove>)
        requires
            piece.wf(),
        ensures
            final(moves)@ == old(moves)@ + moves_for(self@, *piece),
            !piece.is_ready() ==> final(moves)@ == old(moves)@,
    {
        match piece.state {
            PieceState::Stationary { position, cooldown } => {
                if cooldown != 0 {
                    assert(moves@ =~= old(moves)@ + moves_for(self@, *piece));
                    return;
                }
                match piece.kind {
                    PieceKind::Pawn => self.add_pawn_moves(piece, position, moves),
                    PieceKind::Knight => {
                        let ds = knight_deltas();
                        self.add_jump_moves(piece, position, &ds, moves, Ghost(knight_dirs()));
                    },
                    PieceKind::King => {
                        let ds = king_deltas();
                        self.add_jump_moves(piece, position, &ds, moves, Ghost(king_dirs()));
                    },
                    PieceKind::Bishop => {
                        let ds = bishop_deltas();
                        self.add_slider_moves(piece, position, &ds, moves, Ghost(bishop_dirs()));
                    },
                    PieceKind::Rook => {
                        let ds = rook_deltas();
                        self.add_slider_moves(piece, position, &ds, moves, Ghost(rook_dirs()));
                    },
                    PieceKind::Queen => {
                        let ds = queen_deltas();
                        self.add_slider_moves(piece, position, &ds, moves, Ghost(queen_dirs()));
                    },
                }
            },
            PieceState::Moving { .. } => {
                assert(moves@ =~= old(moves)@ + moves_for(self@, *piece));
            },
        }
    }

    /// Every move `side` may start, piece by piece, followed by the pass.
    pub fn get_all_possible_moves(&self, side: Side) -> (r: Vec<BoardMove>)
        requires
            self.wf(),
        ensures
            r@ == all_moves(self@, side),
    {
        let mut moves: Vec<BoardMove> = Vec::new();
        let mut i: usize = 0;
        while i < self.pieces.len()
            invariant
                i <= self@.len(),
                self.wf(),
                moves@ == moves_of_first(self@, side, i as int),
            decreases self@.len() - i,
        {
            let p = self.pieces[i];
            if p.side == side {
                assert(self@[i as int].wf());
                self.add_possible_moves_for_piece(&p, &mut moves);
            } else {
                assert(moves@ =~= moves_of_first(self@, side, i + 1));
            }
            i += 1;
        }
        moves.push(BoardMove::Pass(side));
        moves
    }
}

pub open spec fn sign(v: int) -> int {
    if v < 0 {
        -1
    } else if v > 0 {
        1
    } else {
        0
    }
}

/// A sliding piece of `side` cannot pass `pos`: some piece stands there, or
/// a piece of `side` is on its way there.
pub open spec fn blocks(ps: Seq<Piece>, side: Side, pos: Position) -> bool {
    occupied(ps, pos) || exists|i: int|
        0 <= i < ps.len() && ps[i].side == side && #[trigger] heading_to(ps[i], pos)
}

/// The piece is in transit towards `pos`.
pub open spec fn heading_to(p: Piece, pos: Position) -> bool {
    p.state matches PieceState::Moving { target, .. } && target.target == pos
}

/// No square strictly between `from` and `to`, along a straight or
/// diagonal line, blocks a piece of `side`.
pub open spec fn path_clear(ps: Seq<Piece>, side: Side, from: Position, to: Position) -> bool {
    forall|k: int|
        1 <= k < crate::position::linf(to.x - from.x, to.y - from.y) ==> !#[trigger] blocks(
            ps,
            side,
            between(from, to, k),
        )
}

/// The square `k` unit steps from `from` towards `to`.
pub open spec fn between(from: Position, to: Position, k: int) -> Position {
    square(from.x + k * sign(to.x - from.x), from.y + k * sign(to.y - from.y))
}

/// Whether the displacement `(dx, dy)` fits `kind` from `from`, the board
/// being `ps`; the pawn's rules need the board, the others only their path.
pub open spec fn kind_allows(
    ps: Seq<Piece>,
    piece: Piece,
    from: Position,
    to: Position,
) -> bool {
    let (dx, dy) = (to.x - from.x, to.y - from.y);
    let side = piece.side;
    match piece.kind {
        PieceKind::Pawn => {
            let f = forward(side);
            let taking = enemy_at(ps, side, to);
            let single = dy == f && ((dx == 0 && !taking) || ((dx == 1 || dx == -1) && taking));
            let double = dx == 0 && dy == 2 * f && !taking && from.y == pawn_start_row(side)
                && free_for(ps, side, from.x as int, from.y + f);
            single || double
        },
        PieceKind::Knight => {
            let (ax, ay) = (crate::position::abs(dx), crate::position::abs(dy));
            (ax == 1 && ay == 2) || (ax == 2 && ay == 1)
        },
        PieceKind::King => dx * dx + dy * dy <= 2,
        _ => {
            let straight = dx == 0 || dy == 0;
            let diagonal = crate::position::abs(dx) == crate::position::abs(dy);
            let shape = match piece.kind {
                PieceKind::Bishop => diagonal,
                PieceKind::Rook => straight,
                _ => straight || diagonal,
            };
            shape && path_clear(ps, side, from, to)
        },
    }
}

/// Whether a move may be started on this board: a pass always, a castle
/// never, a piece only when at rest with no cooldown, sent to another square
/// of the board that its side does not hold, along a path its kind allows.
pub open spec fn legal(ps: Seq<Piece>, m: BoardMove) -> bool {
    match m {
        BoardMove::Pass(_) => true,
        BoardMove::LongCastle(_) => false,
        BoardMove::ShortCastle(_) => false,
        BoardMove::Normal { piece, target } => match piece.state {
            PieceState::Stationary { position, cooldown } => {
                &&& cooldown == 0
                &&& position.on_board()
                &&& target.on_board()
                &&& position != target
                &&& valid_destination(ps, piece.side, target)
                &&& kind_allows(ps, piece, position, target)
            },
            PieceState::Moving { .. } => false,
        },
    }
}

impl BoardState {
    /// Whether a sliding piece of `side` cannot pass `pos`.
    fn is_blocked(&self, side: Side, pos: Position) -> (r: bool)
        ensures
            r == blocks(self@, side, pos),
    {
        if self.stationary_index(pos).is_some() {
            return true;
        }
        let mut i: usize = 0;
        while i < self.pieces.len()
            invariant
                i <= self@.len(),
                !occupied(self@, pos),
                forall|j: int|
                    0 <= j < i ==> !(self@[j].side == side && #[trigger] heading_to(self@[j], pos)),
            decreases self@.len() - i,
        {
            let p = self.pieces[i];
            if p.side == side {
                if let PieceState::Moving { target, .. } = p.state {
                    if target.target == pos {
                        assert(self@[i as int].side == side && heading_to(self@[i as int], pos));
                        return true;
                    }
                }
            }
            i += 1;
        }
        false
    }

    /// Whether the squares strictly between `from` and `to` let a sliding
    /// piece of `side` through; `to - from` is straight or diagonal.
    fn is_path_clear(&self, side: Side, from: Position, to: Position) -> (r: bool)
        requires
            from.on_board(),
            to.on_board(),
            (to.x - from.x == 0 || to.y - from.y == 0 || crate::position::abs(to.x - from.x)
                == crate::position::abs(to.y - from.y)),
        ensures
            r == path_clear(self@, side, from, to),
    {
        let d = to.minus(from);
        let n = d.dist_linf();
        let ux: i64 = if d.x < 0 { -1 } else if d.x > 0 { 1 } else { 0 };
        let uy: i64 = if d.y < 0 { -1 } else if d.y > 0 { 1 } else { 0 };
        let mut k: u32 = 1;
        while k < n
            invariant
                1 <= k,
                n == crate::position::linf(d.x as int, d.y as int),
                n <= 7,
                d.x == to.x - from.x,
                d.y == to.y - from.y,
                ux == sign(d.x as int),
                uy == sign(d.y as int),
                from.on_board(),
                to.on_board(),
                (d.x == 0 || d.y == 0 || crate::position::abs(d.x as int) == crate::position::abs(d.y as int)),
                forall|j: int| 1 <= j < k ==> !#[trigger] blocks(self@, side, between(from, to, j)),
            decreases n - k,
        {
            let x = from.x as i64 + k as i64 * ux;
            let y = from.y as i64 + k as i64 * uy;
            proof {
                assert(0 <= x < 8 && 0 <= y < 8) by (nonlinear_arith)
                    requires
                        x == from.x + k * ux,
                        y == from.y + k * uy,
                        ux == sign(d.x as int),
                        uy == sign(d.y as int),
                        1 <= k < n,
                        n == crate::position::linf(d.x as int, d.y as int),
                        d.x == to.x - from.x,
                        d.y == to.y - from.y,
                        0 <= from.x < 8,
                        0 <= from.y < 8,
                        0 <= to.x < 8,
                        0 <= to.y < 8,
                        (d.x == 0 || d.y == 0 || crate::position::abs(d.x as int)
                            == crate::position::abs(d.y as int)),
                ;
            }
            if self.is_blocked(side, Position::new(x as u32, y as u32)) {
                assert(blocks(self@, side, between(from, to, k as int)));
                return false;
            }
            k += 1;
        }
        true
    }

    /// Whether `board_move` may be started on this board.
    pub fn can_move(&self, board_move: &BoardMove) -> (r: bool)
        ensures
            r == legal(self@, *board_move),
    {
        match board_move {
            BoardMove::Pass(_) => true,
            BoardMove::LongCastle(_) => false,
            BoardMove::ShortCastle(_) => false,
            BoardMove::Normal { piece, target } => {
                let target = *target;
                match piece.state {
                    PieceState::Moving { .. } => false,
                    PieceState::Stationary { position, cooldown } => {
                        if cooldown > 0 || !position.is_on_board() || !target.is_on_board() || position == target {
                            return false;
                        }
                        if !self.is_valid_destination(piece.side, target) {
                            return false;
                        }
                        let delta = target.minus(position);
                        let side = piece.side;
                        match piece.kind {
                            PieceKind::Pawn => {
                                let f = forward_y(side);
                                let taking = self.has_enemy_at(side, target);
                                let single = delta.y == f && ((delta.x == 0 && !taking) || ((delta.x == 1 || delta.x == -1) && taking));
                                let start_row: u32 = match side {
                                    Side::White => 6,
                                    Side::Black => 1,
                                };
                                let double = delta.x == 0 && delta.y == 2 * f && !taking && position.y == start_row
                                    && self.is_free_for(side, position.x as i64, position.y as i64 + f as i64);
                                single || double
                            },
                            PieceKind::Knight => {
                                let ax = if delta.x < 0 { -delta.x } else { delta.x };
                                let ay = if delta.y < 0 { -delta.y } else { delta.y };
                                (ax == 1 && ay == 2) || (ax == 2 && ay == 1)
                            },
                            PieceKind::King => {
                                let (dx, dy) = (delta.x as i64, delta.y as i64);
                                proof {
                                    crate::geometry::lemma_mul_bound(dx as int, dx as int, 7, 7);
                                    crate::geometry::lemma_mul_bound(dy as int, dy as int, 7, 7);
                                }
                                dx * dx + dy * dy <= 2
                            },
                            _ => {
                                let ax = if delta.x < 0 { -delta.x } else { delta.x };
                                let ay = if delta.y < 0 { -delta.y } else { delta.y };
                                let straight = delta.x == 0 || delta.y == 0;
                                let diagonal = ax == ay;
                                let shape = match piece.kind {
                                    PieceKind::Bishop => diagonal,
                                    PieceKind::Rook => straight,
                                    _ => straight || diagonal,
                                };
                                shape && self.is_path_clear(side, position, target)
                            },
                        }
                    },
                }
            },
        }
    }
}

/// The legal moves of `piece` to the first `t` squares, column by column.
pub open spec fn naive_for(ps: Seq<Piece>, piece: Piece, t: int) -> Seq<BoardMove>
    decreases t,
{
    if t <= 0 {
        Seq::empty()
    } else {
        let m = BoardMove::Normal { piece, target: square((t - 1) / 8, (t - 1) % 8) };
        naive_for(ps, piece, t - 1) + if legal(ps, m) {
            seq![m]
        } else {
            Seq::empty()
        }
    }
}

/// The legal moves of `side`'s first `k` pieces, found square by square.
pub open spec fn naive_of_first(ps: Seq<Piece>, side: Side, k: int) -> Seq<BoardMove>
    decreases k,
{
    if k <= 0 {
        Seq::empty()
    } else {
        naive_of_first(ps, side, k - 1) + if ps[k - 1].side == side {
            naive_for(ps, ps[k - 1], 64)
        } else {
            Seq::empty()
        }
    }
}

impl BoardState {
    /// Every move `side` may start, found by trying each square with
    /// `can_move`: the castles the flags allow, each piece's moves, the pass.
    pub fn get_all_possible_moves_naive(&self, side: Side) -> (r: Vec<BoardMove>)
        ensures
            r@ == (if (match side {
                Side::White => self.can_long_castle.white,
                Side::Black => self.can_long_castle.black,
            }) {
                seq![BoardMove::LongCastle(side)]
            } else {
                Seq::empty()
            }) + (if (match side {
                Side::White => self.can_short_castle.white,
                Side::Black => self.can_short_castle.black,
            }) {
                seq![BoardMove::ShortCastle(side)]
            } else {
                Seq::empty()
            }) + naive_of_first(self@, side, self@.len() as int) + seq![BoardMove::Pass(side)],
    {
        let mut moves: Vec<BoardMove> = Vec::new();
        let (long, short) = match side {
            Side::White => (self.can_long_castle.white, self.can_short_castle.white),
            Side::Black => (self.can_long_castle.black, self.can_short_castle.black),
        };
        if long {
            moves.push(BoardMove::LongCastle(side));
        }
        if short {
            moves.push(BoardMove::ShortCastle(side));
        }
        let ghost head = moves@;
        let mut k: usize = 0;
        while k < self.pieces.len()
            invariant
                k <= self@.len(),
                moves@ == head + naive_of_first(self@, side, k as int),
            decreases self@.len() - k,
        {
            let piece = self.pieces[k];
            if piece.side == side {
                let ghost before = moves@;
                let mut t: u32 = 0;
                while t < 64
                    invariant
                        t <= 64,
                        k < self@.len(),
                        piece == self@[k as int],
                        moves@ == before + naive_for(self@, piece, t as int),
                    decreases 64 - t,
                {
                    let m = BoardMove::Normal { piece, target: Position::new(t / 8, t % 8) };
                    if self.can_move(&m) {
                        moves.push(m);
                    }
                    assert(moves@ =~= before + naive_for(self@, piece, t + 1));
                    t += 1;
                }
                assert(moves@ =~= head + naive_of_first(self@, side, k + 1));
            } else {
                assert(moves@ =~= head + naive_of_first(self@, side, k + 1));
            }
            k += 1;
        }
        moves.push(BoardMove::Pass(side));
        moves
    }
}

} // verus!
