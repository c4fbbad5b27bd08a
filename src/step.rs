//! Simulated time: launching moves, resolving captures, and advancing pieces.
//!
//! A moving piece covers `target - origin` in `turns_left + priority` ticks at
//! constant velocity. All positions below are scaled by that duration (by 1
//! for a piece at rest), so that they are integers.
use vstd::prelude::*;
use crate::board::{first_stationary_at, pieces_wf, BoardMove, BoardState};
use crate::geometry::{comes_near, comes_near_exec, in_bounds, SCALE_BOUND};
use crate::piece::{promotion_row, MoveTarget, Piece, PieceKind, PieceState, Side, PIECE_COOLDOWN};
use crate::position::{linf, Position};

verus! {

/// Ticks a transit takes from start to finish; 1 for a piece at rest.
pub open spec fn dur(p: Piece) -> int {
    match p.state {
        PieceState::Stationary { .. } => 1,
        PieceState::Moving { target, .. } => target.turns_left + target.priority,
    }
}

/// Displacement per tick, scaled by `dur`.
pub open spec fn vel_x(p: Piece) -> int {
    match p.state {
        PieceState::Stationary { .. } => 0,
        PieceState::Moving { origin, target } => target.target.x - origin.x,
    }
}

pub open spec fn vel_y(p: Piece) -> int {
    match p.state {
        PieceState::Stationary { .. } => 0,
        PieceState::Moving { origin, target } => target.target.y - origin.y,
    }
}

/// Current position, scaled by `dur`.
pub open spec fn at_x(p: Piece) -> int {
    match p.state {
        PieceState::Stationary { position, .. } => position.x as int,
        PieceState::Moving { origin, target } => origin.x * dur(p) + target.priority * vel_x(p),
    }
}

pub open spec fn at_y(p: Piece) -> int {
    match p.state {
        PieceState::Stationary { position, .. } => position.y as int,
        PieceState::Moving { origin, target } => origin.y * dur(p) + target.priority * vel_y(p),
    }
}

/// Within the next `span` ticks, `p` and `c` come within capture distance of
/// each other, both keeping their present velocity.
pub open spec fn paths_meet_within(p: Piece, c: Piece, span: int) -> bool {
    comes_near(
        at_x(p) * dur(c) - at_x(c) * dur(p),
        at_y(p) * dur(c) - at_y(c) * dur(p),
        vel_x(p) * dur(c) - vel_x(c) * dur(p),
        vel_y(p) * dur(c) - vel_y(c) * dur(p),
        dur(p) * dur(c),
        span,
    )
}

/// Over the coming tick, `p` and `c` come within capture distance of each other.
pub open spec fn paths_meet(p: Piece, c: Piece) -> bool {
    paths_meet_within(p, c, 1)
}

/// Ticks left in transit; 0 for a piece at rest.
pub open spec fn turns_left_of(p: Piece) -> int {
    match p.state {
        PieceState::Stationary { .. } => 0,
        PieceState::Moving { target, .. } => target.turns_left as int,
    }
}

pub open spec fn min(a: int, b: int) -> int {
    if a < b { a } else { b }
}

/// `c` takes `p` within the next `n` ticks, the rest of the board being at rest:
/// `c` is an enemy in transit, has right of way, obeys the knight's rule,
/// and passes within capture distance of `p` before it stops.
pub open spec fn sweeps(c: Piece, p: Piece, n: nat) -> bool {
    &&& c.side != p.side
    &&& c.is_moving()
    &&& p.priority() <= c.priority()
    &&& knight_allows(c, p)
    &&& paths_meet_within(p, c, min(n as int, turns_left_of(c)))
}

/// Holds of the pieces that no piece of `ps` sweeps within the next `n` ticks.
pub open spec fn spared(ps: Seq<Piece>, n: nat) -> spec_fn(Piece) -> bool {
    |p: Piece| !(exists|i: int| 0 <= i < ps.len() && #[trigger] sweeps(ps[i], p, n))
}

/// After the coming tick `p` is exactly on `pos`.
pub open spec fn lands_on(p: Piece, pos: Position) -> bool {
    &&& at_x(p) + vel_x(p) == pos.x * dur(p)
    &&& at_y(p) + vel_y(p) == pos.y * dur(p)
}

/// A knight does not sweep: it takes only what will stand on its own target.
pub open spec fn knight_allows(c: Piece, p: Piece) -> bool {
    c.kind != PieceKind::Knight || (c.state matches PieceState::Moving { target, .. } && lands_on(
        p,
        target.target,
    ))
}

/// `c` takes `p` in the coming tick.
pub open spec fn captures(c: Piece, p: Piece) -> bool {
    sweeps(c, p, 1)
}

pub open spec fn sat_sub(a: u32, t: nat) -> u32 {
    if a <= t {
        0
    } else {
        (a - t) as u32
    }
}

/// The kind a piece has on landing on `pos`: a pawn on its far row becomes a queen.
pub open spec fn landed_kind(p: Piece, pos: Position) -> PieceKind {
    if p.kind == PieceKind::Pawn && pos.y == promotion_row(p.side) {
        PieceKind::Queen
    } else {
        p.kind
    }
}

/// `p` after `t` ticks with nothing in its way.
pub open spec fn advance(p: Piece, t: nat) -> Piece {
    match p.state {
        PieceState::Stationary { position, cooldown } => Piece {
            state: PieceState::Stationary { position, cooldown: sat_sub(cooldown, t) },
            ..p
        },
        PieceState::Moving { origin, target } => if target.turns_left <= t {
            Piece {
                side: p.side,
                kind: landed_kind(p, target.target),
                state: PieceState::Stationary {
                    position: target.target,
                    cooldown: sat_sub(PIECE_COOLDOWN, (t - target.turns_left) as nat),
                },
            }
        } else {
            Piece {
                state: PieceState::Moving {
                    origin,
                    target: MoveTarget {
                        target: target.target,
                        turns_left: (target.turns_left - t) as u32,
                        priority: (target.priority + t) as u32,
                    },
                },
                ..p
            }
        },
    }
}

/// The survivors of the coming tick: every piece that no other piece takes.
pub open spec fn survivors(ps: Seq<Piece>) -> Seq<Piece> {
    ps.filter(spared(ps, 1))
}

/// Moves a piece on by `t` ticks.
pub open spec fn advance_by(t: nat) -> spec_fn(Piece) -> Piece {
    |p: Piece| advance(p, t)
}

/// One tick without new moves: captures are decided on the board as it
/// stands, all at once, then every survivor moves on by one tick.
pub open spec fn tick(ps: Seq<Piece>) -> Seq<Piece> {
    survivors(ps).map_values(advance_by(1))
}

/// `n` ticks in a row.
pub open spec fn ticks(ps: Seq<Piece>, n: nat) -> Seq<Piece>
    decreases n,
{
    if n == 0 {
        ps
    } else {
        ticks(tick(ps), (n - 1) as nat)
    }
}

/// A piece at rest on `position` set off towards `dest`.
pub open spec fn launched(p: Piece, position: Position, dest: Position) -> Piece {
    Piece {
        state: PieceState::Moving {
            origin: position,
            target: MoveTarget {
                target: dest,
                turns_left: linf(dest.x - position.x, dest.y - position.y) as u32,
                priority: 0,
            },
        },
        ..p
    }
}

/// What a move needs to be carried out: a piece at rest, sent to another
/// square of the board.
pub open spec fn move_fits(m: BoardMove) -> bool {
    match m {
        BoardMove::Normal { piece, target } => piece.state matches PieceState::Stationary {
            position,
            ..
        } && position.on_board() && target.on_board() && position != target,
        _ => true,
    }
}

/// The board after a move is launched: the first piece at rest on the moving
/// piece's square sets off. Passes, castles and moves that do not fit change
/// nothing.
pub open spec fn apply(ps: Seq<Piece>, m: BoardMove) -> Seq<Piece> {
    if !move_fits(m) {
        ps
    } else {
    match m {
        BoardMove::Normal { piece, target } => match piece.state {
            PieceState::Stationary { position, .. } => if exists|i: int|
                first_stationary_at(ps, position, i) {
                let i = choose|i: int| first_stationary_at(ps, position, i);
                ps.update(i, launched(ps[i], position, target))
            } else {
                ps
            },
            PieceState::Moving { .. } => ps,
        },
        _ => ps,
    }
    }
}

/// One full tick: White's move, then Black's, are launched, then time moves on.
pub open spec fn step_spec(ps: Seq<Piece>, white: BoardMove, black: BoardMove) -> Seq<Piece> {
    tick(apply(apply(ps, white), black))
}

pub(crate) proof fn lemma_first_unique(ps: Seq<Piece>, pos: Position, i: int, j: int)
    requires
        first_stationary_at(ps, pos, i),
        first_stationary_at(ps, pos, j),
    ensures
        i == j,
{
    if i < j {
        assert(!crate::board::stationary_at(ps[i], pos));
    } else if j < i {
        assert(!crate::board::stationary_at(ps[j], pos));
    }
}

/// Bounds on a well-formed piece's kinematics.
proof fn lemma_kinematics_bounds(p: Piece)
    requires
        p.wf(),
    ensures
        1 <= dur(p) <= 7,
        -7 <= vel_x(p) <= 7,
        -7 <= vel_y(p) <= 7,
        0 <= at_x(p) <= 49,
        0 <= at_y(p) <= 49,
{
    match p.state {
        PieceState::Stationary { .. } => {},
        PieceState::Moving { origin, target } => {
            let l = dur(p);
            let tl = target.turns_left as int;
            let pr = target.priority as int;
            let (ox, oy) = (origin.x as int, origin.y as int);
            let (tx, ty) = (target.target.x as int, target.target.y as int);
            assert(at_x(p) == ox * tl + pr * tx) by (nonlinear_arith)
                requires
                    at_x(p) == ox * l + pr * (tx - ox),
                    l == tl + pr,
            ;
            assert(at_y(p) == oy * tl + pr * ty) by (nonlinear_arith)
                requires
                    at_y(p) == oy * l + pr * (ty - oy),
                    l == tl + pr,
            ;
            assert(0 <= ox * tl <= 7 * tl) by (nonlinear_arith)
                requires
                    0 <= ox <= 7,
                    tl >= 0,
            ;
            assert(0 <= pr * tx <= 7 * pr) by (nonlinear_arith)
                requires
                    0 <= tx <= 7,
                    pr >= 0,
            ;
            assert(0 <= oy * tl <= 7 * tl) by (nonlinear_arith)
                requires
                    0 <= oy <= 7,
                    tl >= 0,
            ;
            assert(0 <= pr * ty <= 7 * pr) by (nonlinear_arith)
                requires
                    0 <= ty <= 7,
                    pr >= 0,
            ;
        },
    }
}

/// The kinematics of a well-formed piece: `(at_x, at_y, vel_x, vel_y, dur)`.
fn kinematics(p: &Piece) -> (r: (i64, i64, i64, i64, i64))
    requires
        p.wf(),
    ensures
        r.0 == at_x(*p),
        r.1 == at_y(*p),
        r.2 == vel_x(*p),
        r.3 == vel_y(*p),
        r.4 == dur(*p),
        1 <= r.4 <= 7,
        -7 <= r.2 <= 7,
        -7 <= r.3 <= 7,
        0 <= r.0 <= 49,
        0 <= r.1 <= 49,
{
    proof {
        lemma_kinematics_bounds(*p);
    }
    match p.state {
        PieceState::Stationary { position, .. } => (position.x as i64, position.y as i64, 0, 0, 1),
        PieceState::Moving { origin, target } => {
            let l = target.turns_left as i64 + target.priority as i64;
            let vx = target.target.x as i64 - origin.x as i64;
            let vy = target.target.y as i64 - origin.y as i64;
            proof {
                crate::geometry::lemma_mul_bound(origin.x as int, l as int, 7, 7);
                crate::geometry::lemma_mul_bound(origin.y as int, l as int, 7, 7);
                crate::geometry::lemma_mul_bound(target.priority as int, vx as int, 7, 7);
                crate::geometry::lemma_mul_bound(target.priority as int, vy as int, 7, 7);
            }
            let ax = origin.x as i64 * l + target.priority as i64 * vx;
            let ay = origin.y as i64 * l + target.priority as i64 * vy;
            (ax, ay, vx, vy, l)
        },
    }
}

/// Whether `c` takes `p` within the next `n` ticks, nothing else moving.
pub fn sweeps_exec(c: &Piece, p: &Piece, n: u32) -> (r: bool)
    requires
        c.wf(),
        p.wf(),
    ensures
        r == sweeps(*c, *p, n as nat),
{
    if c.side == p.side {
        return false;
    }
    let (c_target, c_priority, c_left) = match c.state {
        PieceState::Stationary { .. } => {
            return false;
        },
        PieceState::Moving { target, .. } => (target.target, target.priority, target.turns_left),
    };
    let span: i64 = if (n as i64) < (c_left as i64) { n as i64 } else { c_left as i64 };
    let p_priority: i64 = match p.state {
        PieceState::Stationary { .. } => -1,
        PieceState::Moving { target, .. } => target.priority as i64,
    };
    if p_priority > c_priority as i64 {
        return false;
    }
    let (pax, pay, pvx, pvy, pl) = kinematics(p);
    let (cax, cay, cvx, cvy, cl) = kinematics(c);
    if c.kind == PieceKind::Knight {
        proof {
            crate::geometry::lemma_mul_bound(c_target.x as int, pl as int, 7, 7);
            crate::geometry::lemma_mul_bound(c_target.y as int, pl as int, 7, 7);
        }
        let lands = pax + pvx == c_target.x as i64 * pl && pay + pvy == c_target.y as i64 * pl;
        if !lands {
            return false;
        }
    }
    proof {
        crate::geometry::lemma_mul_bound(pax as int, cl as int, 49, 7);
        crate::geometry::lemma_mul_bound(cax as int, pl as int, 49, 7);
        crate::geometry::lemma_mul_bound(pay as int, cl as int, 49, 7);
        crate::geometry::lemma_mul_bound(cay as int, pl as int, 49, 7);
        crate::geometry::lemma_mul_bound(pvx as int, cl as int, 7, 7);
        crate::geometry::lemma_mul_bound(cvx as int, pl as int, 7, 7);
        crate::geometry::lemma_mul_bound(pvy as int, cl as int, 7, 7);
        crate::geometry::lemma_mul_bound(cvy as int, pl as int, 7, 7);
        crate::geometry::lemma_mul_bound(pl as int, cl as int, 7, 7);
        assert(pl * cl >= 1) by (nonlinear_arith)
            requires
                pl >= 1,
                cl >= 1,
        ;
    }
    comes_near_exec(
        pax * cl - cax * pl,
        pay * cl - cay * pl,
        pvx * cl - cvx * pl,
        pvy * cl - cvy * pl,
        pl * cl,
        span,
    )
}

/// `p` after `time` ticks with nothing in its way.
pub fn advance_piece(p: Piece, time: u32) -> (r: Piece)
    requires
        p.wf(),
    ensures
        r == advance(p, time as nat),
        r.wf(),
{
    match p.state {
        PieceState::Stationary { position, cooldown } => {
            let c = if cooldown <= time { 0 } else { cooldown - time };
            Piece { state: PieceState::Stationary { position, cooldown: c }, ..p }
        },
        PieceState::Moving { origin, target } => {
            if target.turns_left <= time {
                let promote = p.kind == PieceKind::Pawn && target.target.y == match p.side {
                    Side::White => 0u32,
                    Side::Black => 7u32,
                };
                let kind = if promote { PieceKind::Queen } else { p.kind };
                let over = time - target.turns_left;
                let c = if PIECE_COOLDOWN <= over { 0 } else { PIECE_COOLDOWN - over };
                Piece {
                    side: p.side,
                    kind,
                    state: PieceState::Stationary { position: target.target, cooldown: c },
                }
            } else {
                Piece {
                    state: PieceState::Moving {
                        origin,
                        target: MoveTarget {
                            target: target.target,
                            turns_left: target.turns_left - time,
                            priority: target.priority + time,
                        },
                    },
                    ..p
                }
            }
        },
    }
}

impl BoardState {
    /// Moves every piece on by `time` ticks, without looking for captures.
    pub(crate) fn advance_pieces_by_time(&mut self, time: u32)
        requires
            old(self).wf(),
        ensures
            final(self)@ == old(self)@.map_values(advance_by(time as nat)),
            final(self).wf(),
            final(self).can_long_castle == old(self).can_long_castle,
            final(self).can_short_castle == old(self).can_short_castle,
    {
        let ghost before = self@;
        let mut i: usize = 0;
        while i < self.pieces.len()
            invariant
                i <= self@.len(),
                self@.len() == before.len(),
                pieces_wf(before),
                forall|j: int| 0 <= j < i ==> self@[j] == advance(before[j], time as nat),
                forall|j: int| i <= j < self@.len() ==> self@[j] == before[j],
                forall|j: int| 0 <= j < i ==> (#[trigger] self@[j]).wf(),
                self.can_long_castle == old(self).can_long_castle,
                self.can_short_castle == old(self).can_short_castle,
            decreases self@.len() - i,
        {
            let p = self.pieces[i];
            let q = advance_piece(p, time);
            self.pieces.set(i, q);
            i += 1;
        }
        assert(self@ =~= before.map_values(advance_by(time as nat)));
    }

    /// Removes every piece that some piece sweeps within the next `n` ticks.
    pub(crate) fn remove_swept(&mut self, n: u32)
        requires
            old(self).wf(),
        ensures
            final(self)@ == old(self)@.filter(spared(old(self)@, n as nat)),
            final(self).wf(),
            final(self).can_long_castle == old(self).can_long_castle,
            final(self).can_short_castle == old(self).can_short_castle,
    {
        let ghost ps = self@;
        let ghost pred = spared(ps, n as nat);
        let mut next: Vec<Piece> = Vec::new();
        let mut i: usize = 0;
        while i < self.pieces.len()
            invariant
                i <= ps.len(),
                self@ == ps,
                pieces_wf(ps),
                next@ == ps.take(i as int).filter(pred),
                pieces_wf(next@),
                pred == spared(ps, n as nat),
            decreases ps.len() - i,
        {
            let p = self.pieces[i];
            let mut taken = false;
            let mut j: usize = 0;
            while j < self.pieces.len()
                invariant
                    j <= ps.len(),
                    self@ == ps,
                    pieces_wf(ps),
                    0 <= i < ps.len(),
                    p == ps[i as int],
                    taken == exists|k: int| 0 <= k < j && #[trigger] sweeps(ps[k], p, n as nat),
                decreases ps.len() - j,
            {
                let c = self.pieces[j];
                if sweeps_exec(&c, &p, n) {
                    taken = true;
                }
                j += 1;
            }
            assert(pred(p) == !taken);
            proof {
                assert(ps.take(i + 1) =~= ps.take(i as int).push(p));
                ps.take(i as int).lemma_filter_push(p, pred);
            }
            if !taken {
                next.push(p);
                assert(next@ == ps.take(i + 1).filter(pred));
            } else {
                assert(ps.take(i + 1).filter(pred) == ps.take(i as int).filter(pred));
            }
            i += 1;
        }
        assert(ps.take(ps.len() as int) =~= ps);
        self.pieces = next;
    }

    /// Resolves the captures of one tick and moves every survivor on by one tick.
    fn resolve_tick(&mut self)
        requires
            old(self).wf(),
        ensures
            final(self)@ == tick(old(self)@),
            final(self).wf(),
            final(self).can_long_castle == old(self).can_long_castle,
            final(self).can_short_castle == old(self).can_short_castle,
    {
        self.remove_swept(1);
        self.advance_pieces_by_time(1);
    }

    /// Sets a piece off, as `apply` says.
    pub fn apply_move(&mut self, board_move: &BoardMove)
        requires
            old(self).wf(),
        ensures
            final(self)@ == apply(old(self)@, *board_move),
            final(self).wf(),
            final(self).can_long_castle == old(self).can_long_castle,
            final(self).can_short_castle == old(self).can_short_castle,
    {
        match board_move {
            BoardMove::Normal { piece, target } => {
                if let PieceState::Stationary { position, .. } = piece.state {
                    if !position.is_on_board() || !target.is_on_board() || position == *target {
                        return;
                    }
                    match self.stationary_index(position) {
                        Some(i) => {
                            let dist = target.minus(position).dist_linf();
                            let p = self.pieces[i];
                            let moving = Piece {
                                state: PieceState::Moving {
                                    origin: position,
                                    target: MoveTarget::new(*target, dist, MoveTarget::MIN_PRIORITY),
                                },
                                ..p
                            };
                            self.pieces.set(i, moving);
                            proof {
                                let j = choose|j: int| first_stationary_at(old(self)@, position, j);
                                lemma_first_unique(old(self)@, position, i as int, j);
                                assert(self@ =~= apply(old(self)@, *board_move));
                            }
                        },
                        None => {},
                    }
                }
            },
            _ => {},
        }
    }

    /// One tick in which neither side launches a move.
    pub fn step_without_moves(&mut self)
        requires
            old(self).wf(),
        ensures
            final(self)@ == tick(old(self)@),
            final(self).wf(),
            final(self).can_long_castle == old(self).can_long_castle,
            final(self).can_short_castle == old(self).can_short_castle,
    {
        self.resolve_tick();
    }

    /// One tick: both moves are launched, captures are resolved, time moves on.
    pub fn step(&mut self, white_move: &BoardMove, black_move: &BoardMove)
        requires
            old(self).wf(),
        ensures
            final(self)@ == step_spec(old(self)@, *white_move, *black_move),
            final(self).wf(),
            final(self).can_long_castle == old(self).can_long_castle,
            final(self).can_short_castle == old(self).can_short_castle,
    {
        self.apply_move(white_move);
        self.apply_move(black_move);
        self.resolve_tick();
    }
}

/// The outcome of a tick is a function of the board and the two moves:
/// the same inputs give the same board.
pub proof fn lemma_step_deterministic(
    ps1: Seq<Piece>,
    ps2: Seq<Piece>,
    white1: BoardMove,
    white2: BoardMove,
    black1: BoardMove,
    black2: BoardMove,
)
    requires
        ps1 == ps2,
        white1 == white2,
        black1 == black2,
    ensures
        step_spec(ps1, white1, black1) == step_spec(ps2, white2, black2),
{
}

/// Two enemy pieces in transit with equal priority, whose paths come within
/// capture distance in the coming tick, are both removed in that tick
/// (where a knight is involved, the other piece lands on its target).
pub proof fn lemma_mutual_annihilation(ps: Seq<Piece>, i: int, j: int)
    requires
        pieces_wf(ps),
        0 <= i < ps.len(),
        0 <= j < ps.len(),
        ps[i].side != ps[j].side,
        ps[i].is_moving(),
        ps[j].is_moving(),
        ps[i].priority() == ps[j].priority(),
        knight_allows(ps[i], ps[j]),
        knight_allows(ps[j], ps[i]),
        paths_meet(ps[i], ps[j]),
    ensures
        !survivors(ps).contains(ps[i]),
        !survivors(ps).contains(ps[j]),
{
    let (p, c) = (ps[i], ps[j]);
    let ax = at_x(p) * dur(c) - at_x(c) * dur(p);
    let ay = at_y(p) * dur(c) - at_y(c) * dur(p);
    let bx = vel_x(p) * dur(c) - vel_x(c) * dur(p);
    let by = vel_y(p) * dur(c) - vel_y(c) * dur(p);
    crate::geometry::lemma_comes_near_symmetric(ax, ay, bx, by, dur(p) * dur(c), 1);
    assert(dur(c) * dur(p) == dur(p) * dur(c)) by (nonlinear_arith);
    assert(paths_meet(c, p));
    assert(c.wf() && p.wf());
    assert(min(1, turns_left_of(c)) == 1);
    assert(min(1, turns_left_of(p)) == 1);
    assert(sweeps(ps[j], ps[i], 1));
    assert(sweeps(ps[i], ps[j], 1));
    if survivors(ps).contains(ps[i]) {
        let k = choose|k: int| 0 <= k < survivors(ps).len() && survivors(ps)[k] == ps[i];
        ps.lemma_filter_pred(spared(ps, 1), k);
    }
    if survivors(ps).contains(ps[j]) {
        let k = choose|k: int| 0 <= k < survivors(ps).len() && survivors(ps)[k] == ps[j];
        ps.lemma_filter_pred(spared(ps, 1), k);
    }
}

/// A knight takes nothing on the way: a piece that will not stand on the
/// knight's target after the tick is never taken by it, however close the
/// knight passes.
pub proof fn lemma_knight_captures_only_on_landing(c: Piece, p: Piece, n: nat)
    requires
        c.kind == PieceKind::Knight,
        c.state matches PieceState::Moving { target, .. } && !lands_on(p, target.target),
    ensures
        !sweeps(c, p, n),
        !captures(c, p),
{
}

/// A pawn turns into a queen in exactly the tick in which it lands on its far
/// row, and a piece never changes kind while in transit or at rest.
pub proof fn lemma_promotion_on_arrival(p: Piece)
    requires
        p.wf(),
    ensures
        (advance(p, 1).kind != p.kind) == (p.kind == PieceKind::Pawn && p.is_moving()
            && turns_left_of(p) == 1 && p.state->Moving_target.target.y == promotion_row(p.side)),
        advance(p, 1).kind != p.kind ==> advance(p, 1).kind == PieceKind::Queen && !advance(
            p,
            1,
        ).is_moving(),
        advance(p, 1).is_moving() ==> advance(p, 1).kind == p.kind,
{
}

/// A piece that lands in the coming tick has the full cooldown right after
/// it, and `k` ticks later has `PIECE_COOLDOWN - k` left: it is ready again
/// exactly `PIECE_COOLDOWN` ticks after landing.
pub proof fn lemma_cooldown_after_landing(p: Piece, k: nat)
    requires
        p.wf(),
        p.is_moving(),
        turns_left_of(p) == 1,
    ensures
        advance(p, 1).state == (PieceState::Stationary {
            position: p.state->Moving_target.target,
            cooldown: PIECE_COOLDOWN,
        }),
        k <= PIECE_COOLDOWN ==> advance(advance(p, 1), k).state->Stationary_cooldown
            == PIECE_COOLDOWN - k,
        advance(advance(p, 1), k).is_ready() == (k >= PIECE_COOLDOWN),
{
}

} // verus!
