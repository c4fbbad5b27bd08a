//! Alternating alpha-beta minimax over the board, with quiescence at the horizon.
//!
//! White maximises, Black minimises. A White node chooses White's move; the
//! Black node below it chooses Black's reply, and the two are played in the
//! same tick. Past the nominal depth only captures that cannot be dodged,
//! and the moves of pieces that must react, are searched, and time jumps to
//! the next landing.
use vstd::prelude::*;
use itertools::Itertools;
use crate::board::{BoardMove, BoardState};
use crate::movegen::{all_moves, heading_to, legal, moves_for, moves_of_first};
use crate::piece::{Piece, PieceKind, PieceState, Side};
use crate::position::linf;
use crate::step::{apply, step_spec, ticks};
use crate::transit::{least_left, settle_time, settled};

verus! {

broadcast use vstd::seq_lib::group_to_multiset_ensures;

/// Extra plies searched past the nominal depth.
pub const MAX_QUIESCENT_DEPTH: i32 = 2;

/// A bound that no score reaches.
pub const SCORE_BOUND: i64 = 1000000;

/// The score of a won game, for White.
pub const WIN_SCORE: i64 = 100;

/// The most pieces a board of 64 squares holds.
pub const MAX_PIECES: usize = 64;

pub open spec fn material_value(kind: PieceKind) -> int {
    match kind {
        PieceKind::Pawn => 1,
        PieceKind::Knight => 3,
        PieceKind::Bishop => 3,
        PieceKind::Rook => 5,
        PieceKind::Queen => 9,
        PieceKind::King => 100,
    }
}

pub fn material_value_exec(kind: PieceKind) -> (r: i64)
    ensures
        r == material_value(kind),
{
    match kind {
        PieceKind::Pawn => 1,
        PieceKind::Knight => 3,
        PieceKind::Bishop => 3,
        PieceKind::Rook => 5,
        PieceKind::Queen => 9,
        PieceKind::King => 100,
    }
}

/// How a game has ended.
#[derive(Debug, Clone, Copy, PartialEq, Eq, Structural)]
pub enum EndState {
    Winner(Side),
    Draw,
}

/// `i` is the first king of `side`.
pub open spec fn first_king(ps: Seq<Piece>, side: Side, i: int) -> bool {
    &&& 0 <= i < ps.len()
    &&& ps[i].kind == PieceKind::King && ps[i].side == side
    &&& forall|j: int| 0 <= j < i ==> !(#[trigger] ps[j].kind == PieceKind::King && ps[j].side == side)
}

pub open spec fn has_king(ps: Seq<Piece>, side: Side) -> bool {
    exists|i: int| first_king(ps, side, i)
}

pub open spec fn king_of(ps: Seq<Piece>, side: Side) -> Piece {
    ps[choose|i: int| first_king(ps, side, i)]
}

/// How the game stands: a side without its king has lost (both kings
/// gone is a draw); two lone kings at rest draw, unless they touch, when
/// the one with less cooldown left wins.
pub open spec fn end_state(ps: Seq<Piece>) -> Option<EndState> {
    let w = has_king(ps, Side::White);
    let b = has_king(ps, Side::Black);
    if !w && !b {
        Some(EndState::Draw)
    } else if !w {
        Some(EndState::Winner(Side::Black))
    } else if !b {
        Some(EndState::Winner(Side::White))
    } else if ps.len() == 2 {
        match (king_of(ps, Side::White).state, king_of(ps, Side::Black).state) {
            (
                PieceState::Stationary { position: wp, cooldown: wc },
                PieceState::Stationary { position: bp, cooldown: bc },
            ) => if linf(wp.x - bp.x, wp.y - bp.y) <= 1 {
                if wc < bc {
                    Some(EndState::Winner(Side::White))
                } else if wc == bc {
                    Some(EndState::Draw)
                } else {
                    Some(EndState::Winner(Side::Black))
                }
            } else {
                Some(EndState::Draw)
            },
            _ => None,
        }
    } else {
        None
    }
}

/// White's material minus Black's.
pub open spec fn material(ps: Seq<Piece>) -> int
    decreases ps.len(),
{
    if ps.len() == 0 {
        0
    } else {
        let p = ps.last();
        material(ps.drop_last()) + match p.side {
            Side::White => material_value(p.kind),
            Side::Black => -material_value(p.kind),
        }
    }
}

/// The score of a board at a leaf: the end of the game if it is over,
/// otherwise the material once everything has landed and cooled down.
pub open spec fn leaf_score(ps: Seq<Piece>) -> int {
    match end_state(ps) {
        Some(EndState::Winner(Side::White)) => WIN_SCORE as int,
        Some(EndState::Winner(Side::Black)) => -WIN_SCORE,
        Some(EndState::Draw) => 0,
        None => material(ticks(ps, settle_time(ps))),
    }
}

proof fn lemma_material_bound(ps: Seq<Piece>)
    ensures
        -100 * ps.len() <= material(ps) <= 100 * ps.len(),
    decreases ps.len(),
{
    if ps.len() > 0 {
        lemma_material_bound(ps.drop_last());
    }
}

proof fn lemma_ticks_len(ps: Seq<Piece>, n: nat)
    ensures
        ticks(ps, n).len() <= ps.len(),
    decreases n,
{
    if n > 0 {
        ps.lemma_filter_len(crate::step::spared(ps, 1));
        lemma_ticks_len(crate::step::tick(ps), (n - 1) as nat);
    }
}

proof fn lemma_apply_len(ps: Seq<Piece>, m: BoardMove)
    ensures
        apply(ps, m).len() == ps.len(),
{
}

proof fn lemma_leaf_bound(ps: Seq<Piece>)
    requires
        ps.len() <= MAX_PIECES,
    ensures
        -6400 <= leaf_score(ps) <= 6400,
{
    lemma_ticks_len(ps, settle_time(ps));
    lemma_material_bound(ticks(ps, settle_time(ps)));
}

impl BoardState {
    fn king_index(&self, side: Side) -> (r: Option<usize>)
        ensures
            match r {
                Some(i) => first_king(self@, side, i as int),
                None => !has_king(self@, side),
            },
    {
        let mut i: usize = 0;
        while i < self.pieces.len()
            invariant
                i <= self@.len(),
                forall|j: int|
                    0 <= j < i ==> !(#[trigger] self@[j].kind == PieceKind::King && self@[j].side
                        == side),
            decreases self@.len() - i,
        {
            if self.pieces[i].kind == PieceKind::King && self.pieces[i].side == side {
                return Some(i);
            }
            i += 1;
        }
        None
    }

    /// How the game stands, as `end_state` says. Of two lone kings at rest
    /// that touch, the one with less cooldown left wins (it can take first);
    /// with equal cooldowns the game is drawn.
    pub fn get_board_end_state(&self) -> (r: Option<EndState>)
        ensures
            r == end_state(self@),
    {
        let w = self.king_index(Side::White);
        let b = self.king_index(Side::Black);
        match (w, b) {
            (None, None) => Some(EndState::Draw),
            (None, Some(_)) => Some(EndState::Winner(Side::Black)),
            (Some(_), None) => Some(EndState::Winner(Side::White)),
            (Some(wi), Some(bi)) => {
                proof {
                    crate::search::lemma_first_king_unique(self@, Side::White, wi as int);
                    crate::search::lemma_first_king_unique(self@, Side::Black, bi as int);
                }
                if self.pieces.len() != 2 {
                    return None;
                }
                match (self.pieces[wi].state, self.pieces[bi].state) {
                    (
                        PieceState::Stationary { position: wp, cooldown: wc },
                        PieceState::Stationary { position: bp, cooldown: bc },
                    ) => {
                        let dx = if wp.x >= bp.x { wp.x - bp.x } else { bp.x - wp.x };
                        let dy = if wp.y >= bp.y { wp.y - bp.y } else { bp.y - wp.y };
                        if dx <= 1 && dy <= 1 {
                            if wc < bc {
                                Some(EndState::Winner(Side::White))
                            } else if wc == bc {
                                Some(EndState::Draw)
                            } else {
                                Some(EndState::Winner(Side::Black))
                            }
                        } else {
                            Some(EndState::Draw)
                        }
                    },
                    _ => None,
                }
            },
        }
    }

    fn material_sum(&self) -> (r: i64)
        requires
            self@.len() <= MAX_PIECES,
        ensures
            r == material(self@),
    {
        let mut total: i64 = 0;
        let mut i: usize = 0;
        while i < self.pieces.len()
            invariant
                i <= self@.len(),
                self@.len() <= MAX_PIECES,
                total == material(self@.take(i as int)),
            decreases self@.len() - i,
        {
            proof {
                assert(self@.take(i + 1).drop_last() =~= self@.take(i as int));
                lemma_material_bound(self@.take(i as int));
            }
            let p = self.pieces[i];
            let v = material_value_exec(p.kind);
            total = match p.side {
                Side::White => total + v,
                Side::Black => total - v,
            };
            i += 1;
        }
        assert(self@.take(self@.len() as int) =~= self@);
        total
    }
}

proof fn lemma_first_king_unique(ps: Seq<Piece>, side: Side, i: int)
    requires
        first_king(ps, side, i),
    ensures
        (choose|j: int| first_king(ps, side, j)) == i,
{
    let j = choose|j: int| first_king(ps, side, j);
    assert(first_king(ps, side, j));
    if j < i {
        assert(!(ps[j].kind == PieceKind::King && ps[j].side == side));
    } else if i < j {
        assert(!(ps[i].kind == PieceKind::King && ps[i].side == side));
    }
}

/// The score of a board as a leaf, as `leaf_score` says.
pub fn evaluate_material_heuristic(state: &BoardState) -> (r: i64)
    requires
        state.wf(),
        state@.len() <= MAX_PIECES,
    ensures
        r == leaf_score(state@),
        -6400 <= r <= 6400,
{
    proof {
        lemma_leaf_bound(state@);
    }
    match state.get_board_end_state() {
        Some(EndState::Winner(Side::White)) => WIN_SCORE,
        Some(EndState::Winner(Side::Black)) => -WIN_SCORE,
        Some(EndState::Draw) => 0,
        None => {
            let mut settled_board = state.duplicate();
            settled_board.step_until_stationary_with_no_cooldown();
            proof {
                lemma_ticks_len(state@, settle_time(state@));
            }
            settled_board.material_sum()
        },
    }
}

/// Relies on `itertools::Itertools::sorted_by_key`: a stable sort of the
/// items by their first component.
#[verifier::external_body]
fn sort_by_first(v: Vec<(i64, usize)>) -> (r: Vec<(i64, usize)>)
    ensures
        r@.to_multiset() == v@.to_multiset(),
        forall|i: int, j: int| 0 <= i < j < r@.len() ==> r@[i].0 <= r@[j].0,
        forall|i: int, j: int|
            0 <= i < j < r@.len() && r@[i].0 == r@[j].0 ==> exists|a: int, b: int|
                0 <= a < b < v@.len() && v@[a] == r@[i] && v@[b] == r@[j],
{
    v.into_iter().sorted_by_key(|item| item.0).collect()
}

/// `r` lists `moves` in the order `idx`, a reordering by `keys`: the keys
/// never decrease along it, and moves with equal keys keep their given order.
pub open spec fn stably_ordered(r: Seq<BoardMove>, moves: Seq<BoardMove>, keys: Seq<int>, idx: Seq<int>) -> bool {
    &&& idx.len() == r.len()
    &&& r.len() == moves.len()
    &&& forall|q: int| 0 <= q < idx.len() ==> 0 <= #[trigger] idx[q] < moves.len() && r[q] == moves[idx[q]]
    &&& forall|q: int, t: int| 0 <= q < t < idx.len() ==> keys[#[trigger] idx[q]] <= keys[#[trigger] idx[t]]
    &&& forall|q: int, t: int|
        0 <= q < t < idx.len() && keys[#[trigger] idx[q]] == keys[#[trigger] idx[t]] ==> idx[q] < idx[t]
}

pub open spec fn as_ints(keys: Seq<i64>) -> Seq<int> {
    keys.map_values(|k: i64| k as int)
}

/// `moves` reordered by `keys`, lowest key first, equal keys in their given
/// order.
fn order_by_keys(moves: Vec<BoardMove>, keys: Vec<i64>) -> (r: Vec<BoardMove>)
    requires
        keys@.len() == moves@.len(),
    ensures
        r@.len() == moves@.len(),
        forall|m: BoardMove| r@.contains(m) <==> moves@.contains(m),
        exists|idx: Seq<int>| stably_ordered(r@, moves@, as_ints(keys@), idx),
{
    let mut tagged: Vec<(i64, usize)> = Vec::new();
    let mut i: usize = 0;
    while i < keys.len()
        invariant
            i <= keys@.len(),
            tagged@.len() == i,
            forall|j: int| 0 <= j < i ==> (#[trigger] tagged@[j]) == (keys@[j], j as usize),
        decreases keys@.len() - i,
    {
        tagged.push((keys[i], i));
        i += 1;
    }
    let ghost key_view = tagged@;
    let sorted = sort_by_first(tagged);
    proof {
        sorted@.to_multiset_ensures();
        key_view.to_multiset_ensures();
        assert(sorted@.len() == sorted@.to_multiset().len());
        assert(key_view.len() == key_view.to_multiset().len());
    }
    let mut out: Vec<BoardMove> = Vec::new();
    let mut p: usize = 0;
    while p < sorted.len()
        invariant
            p <= sorted@.len(),
            sorted@.len() == key_view.len(),
            sorted@.to_multiset() == key_view.to_multiset(),
            key_view.len() == moves@.len(),
            forall|i: int| 0 <= i < key_view.len() ==> (#[trigger] key_view[i]).1 == i,
            out@.len() == p,
            forall|q: int| 0 <= q < p ==> (#[trigger] sorted@[q]).1 < moves@.len(),
            forall|q: int| 0 <= q < p ==> #[trigger] out@[q] == moves@[sorted@[q].1 as int],
        decreases sorted@.len() - p,
    {
        let item = sorted[p];
        proof {
            sorted@.to_multiset_ensures();
            key_view.to_multiset_ensures();
            assert(sorted@[p as int] == item);
            assert(sorted@.contains(item));
            assert(sorted@.to_multiset().count(item) > 0);
            assert(key_view.to_multiset().count(item) > 0);
            assert(key_view.contains(item));
            let i = choose|i: int| 0 <= i < key_view.len() && key_view[i] == item;
            assert(key_view[i].1 == i);
        }
        let ghost old_out = out@;
        out.push(moves[item.1]);
        proof {
            assert forall|q: int| 0 <= q < p + 1 implies (#[trigger] sorted@[q]).1 < moves@.len() && out@[q] == moves@[sorted@[q].1 as int] by {
                if q < p {
                    assert(out@[q] == old_out[q]);
                } else {
                    assert(sorted@[q] == item);
                }
            }
        }
        p += 1;
    }
    proof {
        assert forall|m: BoardMove| out@.contains(m) <==> moves@.contains(m) by {
            if out@.contains(m) {
                let q = choose|q: int| 0 <= q < out@.len() && out@[q] == m;
                assert(moves@[sorted@[q].1 as int] == m);
            }
            if moves@.contains(m) {
                let i = choose|i: int| 0 <= i < moves@.len() && moves@[i] == m;
                sorted@.to_multiset_ensures();
                key_view.to_multiset_ensures();
                assert(key_view.contains(key_view[i]));
                assert(key_view.to_multiset().count(key_view[i]) > 0);
                assert(sorted@.to_multiset().count(key_view[i]) > 0);
                assert(sorted@.contains(key_view[i]));
                let q = choose|q: int| 0 <= q < sorted@.len() && sorted@[q] == key_view[i];
                assert(out@[q] == m);
            }
        }
        let idx = sorted@.map_values(|t: (i64, usize)| t.1 as int);
        let ik = as_ints(keys@);
        assert forall|q: int| 0 <= q < sorted@.len() implies sorted@[q].0 as int == ik[sorted@[q].1 as int]
            && (#[trigger] sorted@[q]).1 < keys@.len() by {
            sorted@.to_multiset_ensures();
            key_view.to_multiset_ensures();
            assert(sorted@.contains(sorted@[q]));
            assert(sorted@.to_multiset().count(sorted@[q]) > 0);
            assert(key_view.to_multiset().count(sorted@[q]) > 0);
            assert(key_view.contains(sorted@[q]));
            let j = choose|j: int| 0 <= j < key_view.len() && key_view[j] == sorted@[q];
            assert(key_view[j] == (keys@[j], j as usize));
        }
        assert forall|q: int, t: int| 0 <= q < t < idx.len() && ik[#[trigger] idx[q]] == ik[#[trigger] idx[t]] implies idx[q] < idx[t] by {
            assert(sorted@[q].0 as int == ik[sorted@[q].1 as int]);
            assert(sorted@[t].0 as int == ik[sorted@[t].1 as int]);
            let (a, b) = choose|a: int, b: int| 0 <= a < b < key_view.len() && key_view[a] == sorted@[q] && key_view[b] == sorted@[t];
            assert(key_view[a] == (keys@[a], a as usize));
            assert(key_view[b] == (keys@[b], b as usize));
        }
        assert forall|q: int, t: int| 0 <= q < t < idx.len() implies ik[#[trigger] idx[q]] <= ik[#[trigger] idx[t]] by {
            assert(sorted@[q].0 as int == ik[sorted@[q].1 as int]);
            assert(sorted@[t].0 as int == ik[sorted@[t].1 as int]);
        }
        assert forall|q: int| 0 <= q < idx.len() implies 0 <= #[trigger] idx[q] < moves@.len() && out@[q] == moves@[idx[q]] by {
            assert(sorted@[q].1 < keys@.len());
        }
        assert(stably_ordered(out@, moves@, ik, idx));
    }
    out
}

/// The row from which a pawn of `side` promotes with its next step.
pub open spec fn last_step_row(side: Side) -> u32 {
    match side {
        Side::White => 1,
        Side::Black => 6,
    }
}

/// Some piece is in transit towards `pos`.
pub open spec fn targeted(ps: Seq<Piece>, pos: crate::position::Position) -> bool {
    exists|i: int| 0 <= i < ps.len() && #[trigger] heading_to(ps[i], pos)
}

/// A piece at rest that must act now: a pawn one step from promotion, or a
/// piece something is on its way to.
pub open spec fn must_react(ps: Seq<Piece>, p: Piece) -> bool {
    match p.state {
        PieceState::Stationary { position, .. } => (p.kind == PieceKind::Pawn && position.y
            == last_step_row(p.side)) || targeted(ps, position),
        PieceState::Moving { .. } => false,
    }
}

/// The capture of `victim` by `capturer` when the victim cannot get away:
/// both at rest, the capturer ready, the victim's cooldown at least the
/// capturer's travel time, and the move legal.
pub open spec fn forced_capture(ps: Seq<Piece>, victim: Piece, capturer: Piece) -> Option<BoardMove> {
    if victim.side == capturer.side {
        None
    } else {
        match (victim.state, capturer.state) {
            (
                PieceState::Stationary { position, cooldown },
                PieceState::Stationary { position: from, cooldown: ready },
            ) => if ready == 0 && cooldown >= linf(position.x - from.x, position.y - from.y) {
                let m = BoardMove::Normal { piece: capturer, target: position };
                if legal(ps, m) {
                    Some(m)
                } else {
                    None
                }
            } else {
                None
            },
            _ => None,
        }
    }
}

/// The forced captures `capturer` has against the first `j` pieces.
pub open spec fn captures_by(ps: Seq<Piece>, capturer: Piece, j: int) -> Seq<BoardMove>
    decreases j,
{
    if j <= 0 {
        Seq::empty()
    } else {
        captures_by(ps, capturer, j - 1) + match forced_capture(ps, ps[j - 1], capturer) {
            Some(m) => seq![m],
            None => Seq::empty(),
        }
    }
}

/// The kinds of the victims of `captures_by(ps, capturer, j)`, in the same order.
pub open spec fn victims_by(ps: Seq<Piece>, capturer: Piece, j: int) -> Seq<PieceKind>
    decreases j,
{
    if j <= 0 {
        Seq::empty()
    } else {
        victims_by(ps, capturer, j - 1) + match forced_capture(ps, ps[j - 1], capturer) {
            Some(_) => seq![ps[j - 1].kind],
            None => Seq::empty(),
        }
    }
}

/// The kinds of the victims of `q_captures(ps, side, k)`, in the same order.
pub open spec fn q_victims(ps: Seq<Piece>, side: Side, k: int) -> Seq<PieceKind>
    decreases k,
{
    if k <= 0 {
        Seq::empty()
    } else {
        let p = ps[k - 1];
        q_victims(ps, side, k - 1) + if p.side == side && p.state is Stationary && !must_react(
            ps,
            p,
        ) {
            victims_by(ps, p, ps.len() as int)
        } else {
            Seq::empty()
        }
    }
}

/// `key[i]` is what `f` gives for the kind of capture `i`'s capturer minus
/// what it gives for the kind of its victim.
pub open spec fn capture_keys<F: Fn(PieceKind) -> i32>(
    f: F,
    caps: Seq<BoardMove>,
    victims: Seq<PieceKind>,
    key: Seq<int>,
) -> bool {
    &&& key.len() == caps.len()
    &&& victims.len() == caps.len()
    &&& forall|i: int| 0 <= i < caps.len() ==> #[trigger] key_of(f, caps[i], victims[i], key[i])
}

/// `k` is what `f` gives for the capturer of `cap` minus what it gives for `victim`.
pub open spec fn key_of<F: Fn(PieceKind) -> i32>(f: F, cap: BoardMove, victim: PieceKind, k: int) -> bool {
    exists|a: i32, b: i32|
        f.ensures((cap->Normal_piece.kind,), a) && f.ensures((victim,), b) && k == a - b
}

/// The forced captures of `side`'s first `k` pieces that need not react.
pub open spec fn q_captures(ps: Seq<Piece>, side: Side, k: int) -> Seq<BoardMove>
    decreases k,
{
    if k <= 0 {
        Seq::empty()
    } else {
        let p = ps[k - 1];
        q_captures(ps, side, k - 1) + if p.side == side && p.state is Stationary && !must_react(
            ps,
            p,
        ) {
            captures_by(ps, p, ps.len() as int)
        } else {
            Seq::empty()
        }
    }
}

/// All moves of `side`'s first `k` pieces that must react.
pub open spec fn q_evasions(ps: Seq<Piece>, side: Side, k: int) -> Seq<BoardMove>
    decreases k,
{
    if k <= 0 {
        Seq::empty()
    } else {
        let p = ps[k - 1];
        q_evasions(ps, side, k - 1) + if p.side == side && must_react(ps, p) {
            moves_for(ps, p)
        } else {
            Seq::empty()
        }
    }
}

/// The candidates of a quiescent node: forced captures, the moves of the
/// pieces that must react, and the pass.
pub open spec fn quiescent_moves(ps: Seq<Piece>, side: Side) -> Seq<BoardMove> {
    q_captures(ps, side, ps.len() as int) + q_evasions(ps, side, ps.len() as int) + seq![
        BoardMove::Pass(side),
    ]
}

impl BoardState {
    /// Whether some piece is on its way to `position`.
    pub fn is_target_of_capture(&self, position: &crate::position::Position) -> (r: bool)
        ensures
            r == targeted(self@, *position),
    {
        let mut i: usize = 0;
        while i < self.pieces.len()
            invariant
                i <= self@.len(),
                forall|j: int| 0 <= j < i ==> !#[trigger] heading_to(self@[j], *position),
            decreases self@.len() - i,
        {
            if let PieceState::Moving { target, .. } = self.pieces[i].state {
                if target.target == *position {
                    assert(heading_to(self@[i as int], *position));
                    return true;
                }
            }
            i += 1;
        }
        false
    }

    fn get_force_capture_move(&self, piece: &Piece, capturer: &Piece) -> (r: Option<BoardMove>)
        requires
            piece.wf(),
            capturer.wf(),
        ensures
            r == forced_capture(self@, *piece, *capturer),
    {
        if piece.side == capturer.side {
            return None;
        }
        match (piece.state, capturer.state) {
            (
                PieceState::Stationary { position, cooldown },
                PieceState::Stationary { position: from, cooldown: ready },
            ) => {
                if ready != 0 {
                    return None;
                }
                let transit_time = position.minus(from).dist_linf();
                if cooldown >= transit_time {
                    let m = BoardMove::Normal { piece: *capturer, target: position };
                    if self.can_move(&m) {
                        Some(m)
                    } else {
                        None
                    }
                } else {
                    None
                }
            },
            _ => None,
        }
    }

    /// The candidates of a quiescent node for `side`: the forced captures,
    /// sorted by `f(capturer) - f(victim)` so the cheapest capturer of the
    /// dearest victim comes first, then the moves of every piece that must
    /// react, then the pass.
    pub fn get_sorted_quiescent_moves<F: Fn(PieceKind) -> i32>(&self, side: Side, f: F) -> (r: Vec<BoardMove>)
        requires
            self.wf(),
            forall|k: PieceKind| #[trigger] f.requires((k,)),
        ensures
            forall|m: BoardMove| r@.contains(m) <==> quiescent_moves(self@, side).contains(m),
            r@.len() >= 1,
            r@.last() == BoardMove::Pass(side),
            r@.len() == quiescent_moves(self@, side).len(),
            r@.subrange(
                r@.len() - 1 - q_evasions(self@, side, self@.len() as int).len(),
                r@.len() - 1,
            ) == q_evasions(self@, side, self@.len() as int),
            exists|key: Seq<int>, idx: Seq<int>|
                capture_keys(
                    f,
                    q_captures(self@, side, self@.len() as int),
                    q_victims(self@, side, self@.len() as int),
                    key,
                ) && stably_ordered(
                    r@.take(q_captures(self@, side, self@.len() as int).len() as int),
                    q_captures(self@, side, self@.len() as int),
                    key,
                    idx,
                ),
    {
        let ghost ps = self@;
        let ghost mut vk: Seq<PieceKind> = Seq::empty();
        let n = self.pieces.len();
        let mut caps: Vec<BoardMove> = Vec::new();
        let mut keys: Vec<i64> = Vec::new();
        let mut evas: Vec<BoardMove> = Vec::new();
        let mut k: usize = 0;
        while k < n
            invariant
                n == ps.len(),
                self@ == ps,
                self.wf(),
                forall|q: PieceKind| #[trigger] f.requires((q,)),
                k <= n,
                caps@ == q_captures(ps, side, k as int),
                evas@ == q_evasions(ps, side, k as int),
                vk == q_victims(ps, side, k as int),
                capture_keys(f, caps@, vk, as_ints(keys@)),
            decreases n - k,
        {
            let piece = self.pieces[k];
            assert(ps[k as int].wf());
            if piece.side == side {
                if let PieceState::Stationary { position, .. } = piece.state {
                    let promoting = piece.kind == PieceKind::Pawn && position.y == match side {
                        Side::White => 1u32,
                        Side::Black => 6u32,
                    };
                    if promoting || self.is_target_of_capture(&position) {
                        self.add_possible_moves_for_piece(&piece, &mut evas);
                        assert(caps@ =~= q_captures(ps, side, k + 1));
                        assert(vk =~= q_victims(ps, side, k + 1));
                    } else {
                        let ghost before = caps@;
                        let ghost before_vk = vk;
                        let mut j: usize = 0;
                        while j < n
                            invariant
                                n == ps.len(),
                                self@ == ps,
                                self.wf(),
                                forall|q: PieceKind| #[trigger] f.requires((q,)),
                                j <= n,
                                k < n,
                                piece == ps[k as int],
                                piece.wf(),
                                caps@ == before + captures_by(ps, piece, j as int),
                                vk == before_vk + victims_by(ps, piece, j as int),
                                capture_keys(f, caps@, vk, as_ints(keys@)),
                            decreases n - j,
                        {
                            let victim = self.pieces[j];
                            assert(ps[j as int].wf());
                            match self.get_force_capture_move(&victim, &piece) {
                                Some(m) => {
                                    let fa = f(piece.kind);
                                    let fb = f(victim.kind);
                                    let key = fa as i64 - fb as i64;
                                    let ghost old_caps = caps@;
                                    let ghost old_keys = keys@;
                                    let ghost old_vk = vk;
                                    caps.push(m);
                                    keys.push(key);
                                    proof {
                                        vk = vk.push(victim.kind);
                                        assert(vk =~= before_vk + victims_by(ps, piece, j + 1));
                                        assert(m->Normal_piece == piece);
                                        assert forall|i: int| 0 <= i < caps@.len() implies #[trigger] key_of(f, caps@[i], vk[i], as_ints(keys@)[i]) by {
                                            if i < old_caps.len() {
                                                assert(caps@[i] == old_caps[i] && vk[i] == old_vk[i]);
                                                assert(as_ints(keys@)[i] == as_ints(old_keys)[i]);
                                                assert(key_of(f, old_caps[i], old_vk[i], as_ints(old_keys)[i]));
                                            } else {
                                                assert(f.ensures((caps@[i]->Normal_piece.kind,), fa));
                                                assert(f.ensures((vk[i],), fb));
                                                assert(keys@[i] == key);
                                                assert(as_ints(keys@)[i] == fa - fb);
                                            }
                                        }
                                        assert(as_ints(keys@).len() == caps@.len());
                                        assert(vk.len() == caps@.len());
                                        assert(capture_keys(f, caps@, vk, as_ints(keys@)));
                                    }
                                    assert(caps@ =~= before + captures_by(ps, piece, j + 1));
                                },
                                None => {
                                    assert(caps@ =~= before + captures_by(ps, piece, j + 1));
                                    assert(vk =~= before_vk + victims_by(ps, piece, j + 1));
                                },
                            }
                            j += 1;
                        }
                        assert(evas@ =~= q_evasions(ps, side, k + 1));
                        assert(vk =~= q_victims(ps, side, k + 1));
                    }
                } else {
                    assert(caps@ =~= q_captures(ps, side, k + 1));
                    assert(evas@ =~= q_evasions(ps, side, k + 1));
                    assert(vk =~= q_victims(ps, side, k + 1));
                }
            } else {
                assert(caps@ =~= q_captures(ps, side, k + 1));
                assert(evas@ =~= q_evasions(ps, side, k + 1));
                assert(vk =~= q_victims(ps, side, k + 1));
            }
            k += 1;
        }
        let ghost caps_view = caps@;
        let ghost key_ints = as_ints(keys@);
        let mut out = order_by_keys(caps, keys);
        proof {
            assert forall|m: BoardMove| out@.contains(m) <==> caps_view.contains(m) by {}
        }
        let ghost sorted_part = out@;
        let mut e: usize = 0;
        while e < evas.len()
            invariant
                e <= evas@.len(),
                out@ == sorted_part + evas@.take(e as int),
            decreases evas@.len() - e,
        {
            out.push(evas[e]);
            assert(evas@.take(e + 1) =~= evas@.take(e as int).push(evas@[e as int]));
            e += 1;
        }
        assert(evas@.take(evas@.len() as int) =~= evas@);
        out.push(BoardMove::Pass(side));
        proof {
            let qm = quiescent_moves(ps, side);
            assert(out@ =~= sorted_part + evas@ + seq![BoardMove::Pass(side)]);
            assert forall|m: BoardMove| out@.contains(m) <==> qm.contains(m) by {
                if out@.contains(m) {
                    let q = choose|q: int| 0 <= q < out@.len() && out@[q] == m;
                    if q < sorted_part.len() {
                        assert(sorted_part.contains(m));
                        let i = choose|i: int| 0 <= i < caps_view.len() && caps_view[i] == m;
                        assert(qm[i] == m);
                    } else {
                        assert(qm[q] == m);
                    }
                }
                if qm.contains(m) {
                    let q = choose|q: int| 0 <= q < qm.len() && qm[q] == m;
                    if q < caps_view.len() {
                        assert(caps_view.contains(m));
                        assert(sorted_part.contains(m));
                        let i = choose|i: int| 0 <= i < sorted_part.len() && sorted_part[i] == m;
                        assert(out@[i] == m);
                    } else {
                        assert(out@[q] == m);
                    }
                }
            }
            assert(out@.take(caps_view.len() as int) =~= sorted_part);
            let idx = choose|idx: Seq<int>| stably_ordered(sorted_part, caps_view, key_ints, idx);
            assert(capture_keys(f, caps_view, vk, key_ints));
            assert(stably_ordered(out@.take(caps_view.len() as int), caps_view, key_ints, idx));
            assert(out@.subrange(
                out@.len() - 1 - evas@.len(),
                out@.len() - 1,
            ) =~= evas@);
        }
        out
    }
}

/// Every move of `s` belongs to `side`.
pub open spec fn all_of_side(s: Seq<BoardMove>, side: Side) -> bool {
    forall|i: int| 0 <= i < s.len() ==> (#[trigger] s[i]).side_of() == side
}

pub open spec fn opponent(side: Side) -> Side {
    match side {
        Side::White => Side::Black,
        Side::Black => Side::White,
    }
}

/// The moves of `s` alternate sides, starting with `first`.
pub open spec fn alternates(s: Seq<BoardMove>, first: Side) -> bool {
    forall|k: int|
        0 <= k < s.len() ==> (#[trigger] s[k]).side_of() == if k % 2 == 0 {
            first
        } else {
            opponent(first)
        }
}

proof fn lemma_concat_side(a: Seq<BoardMove>, b: Seq<BoardMove>, side: Side)
    requires
        all_of_side(a, side),
        all_of_side(b, side),
    ensures
        all_of_side(a + b, side),
{
    assert forall|i: int| 0 <= i < (a + b).len() implies (#[trigger] (a + b)[i]).side_of() == side by {
        if i < a.len() {
            assert((a + b)[i] == a[i]);
        } else {
            assert((a + b)[i] == b[i - a.len()]);
        }
    }
}

proof fn lemma_moves_of_first_side(ps: Seq<Piece>, side: Side, k: int)
    ensures
        all_of_side(moves_of_first(ps, side, k), side),
    decreases k,
{
    if k > 0 {
        lemma_moves_of_first_side(ps, side, k - 1);
        let tail = if ps[k - 1].side == side {
            moves_for(ps, ps[k - 1])
        } else {
            Seq::empty()
        };
        lemma_concat_side(moves_of_first(ps, side, k - 1), tail, side);
    }
}

proof fn lemma_captures_by_side(ps: Seq<Piece>, capturer: Piece, j: int)
    ensures
        all_of_side(captures_by(ps, capturer, j), capturer.side),
    decreases j,
{
    if j > 0 {
        lemma_captures_by_side(ps, capturer, j - 1);
        let tail = match forced_capture(ps, ps[j - 1], capturer) {
            Some(m) => seq![m],
            None => Seq::empty(),
        };
        lemma_concat_side(captures_by(ps, capturer, j - 1), tail, capturer.side);
    }
}

proof fn lemma_q_side(ps: Seq<Piece>, side: Side, k: int)
    ensures
        all_of_side(q_captures(ps, side, k), side),
        all_of_side(q_evasions(ps, side, k), side),
    decreases k,
{
    if k > 0 {
        lemma_q_side(ps, side, k - 1);
        let p = ps[k - 1];
        lemma_captures_by_side(ps, p, ps.len() as int);
        let caps = if p.side == side && p.state is Stationary && !must_react(ps, p) {
            captures_by(ps, p, ps.len() as int)
        } else {
            Seq::empty()
        };
        let evas = if p.side == side && must_react(ps, p) {
            moves_for(ps, p)
        } else {
            Seq::empty()
        };
        lemma_concat_side(q_captures(ps, side, k - 1), caps, side);
        lemma_concat_side(q_evasions(ps, side, k - 1), evas, side);
    }
}

/// Every candidate of `side` belongs to `side`.
proof fn lemma_moves_at_side(ps: Seq<Piece>, side: Side, depth: int)
    ensures
        all_of_side(moves_at(ps, side, depth), side),
{
    lemma_moves_of_first_side(ps, side, ps.len() as int);
    lemma_q_side(ps, side, ps.len() as int);
    let pass: Seq<BoardMove> = seq![BoardMove::Pass(side)];
    lemma_concat_side(moves_of_first(ps, side, ps.len() as int), pass, side);
    lemma_concat_side(q_captures(ps, side, ps.len() as int), q_evasions(ps, side, ps.len() as int), side);
    lemma_concat_side(q_captures(ps, side, ps.len() as int) + q_evasions(ps, side, ps.len() as int), pass, side);
}

/// The candidates of `side` at `depth`: every move while depth is left,
/// the quiescent candidates past it.
pub open spec fn moves_at(ps: Seq<Piece>, side: Side, depth: int) -> Seq<BoardMove> {
    if depth <= 0 {
        quiescent_moves(ps, side)
    } else {
        all_moves(ps, side)
    }
}

/// The search stops here: the game is over, the horizon is reached on a
/// settled board, or the quiescence floor is reached.
pub open spec fn terminal(ps: Seq<Piece>, depth: int) -> bool {
    end_state(ps) is Some || (settled(ps) && depth <= 0) || depth <= -MAX_QUIESCENT_DEPTH
}

/// The board after White's `w` and Black's `b`: one tick while depth is
/// left; past the horizon, time runs until the next landing, or until
/// everything has settled when nothing is in transit.
pub open spec fn successor(ps: Seq<Piece>, depth: int, w: BoardMove, b: BoardMove) -> Seq<Piece> {
    if depth <= 0 {
        let q = apply(apply(ps, w), b);
        if exists|i: int| 0 <= i < q.len() && q[i].is_moving() {
            ticks(q, least_left(q))
        } else {
            ticks(q, settle_time(q))
        }
    } else {
        step_spec(ps, w, b)
    }
}

pub open spec fn max(a: int, b: int) -> int {
    if a < b {
        b
    } else {
        a
    }
}

pub open spec fn min(a: int, b: int) -> int {
    if a < b {
        a
    } else {
        b
    }
}

/// The score of a leaf by the material heuristic, as a function.
pub open spec fn material_leaf() -> spec_fn(Seq<Piece>) -> int {
    |ps: Seq<Piece>| leaf_score(ps)
}

/// The minimax value of a White node with the material heuristic at the leaves.
pub open spec fn white_value(ps: Seq<Piece>, depth: int) -> int {
    white_value_by(material_leaf(), ps, depth)
}

/// The minimax value of a White node, leaves scored by `h`: the best, for
/// White, of the values of the Black nodes its candidates lead to.
pub open spec fn white_value_by(h: spec_fn(Seq<Piece>) -> int, ps: Seq<Piece>, depth: int) -> int
    decreases depth + 3, 3int, 0int,
{
    if terminal(ps, depth) || depth < -1 {
        h(ps)
    } else {
        white_best(h, ps, depth, moves_at(ps, Side::White, depth).len() as int)
    }
}

/// The best value for White among its first `i` candidates.
pub open spec fn white_best(h: spec_fn(Seq<Piece>) -> int, ps: Seq<Piece>, depth: int, i: int) -> int
    decreases depth + 3, 2int, i,
{
    let ms = moves_at(ps, Side::White, depth);
    if depth < -1 || i <= 0 {
        -SCORE_BOUND
    } else if i == 1 {
        black_value(h, ps, depth, ms[0])
    } else {
        max(white_best(h, ps, depth, i - 1), black_value(h, ps, depth, ms[i - 1]))
    }
}

/// The minimax value of the Black node reached by White's `w`: the best, for
/// Black, of the White nodes one level down that its candidates lead to.
pub open spec fn black_value(h: spec_fn(Seq<Piece>) -> int, ps: Seq<Piece>, depth: int, w: BoardMove) -> int
    decreases depth + 3, 1int, 0int,
{
    if terminal(ps, depth) || depth < -1 {
        h(ps)
    } else {
        black_best(h, ps, depth, w, moves_at(ps, Side::Black, depth).len() as int)
    }
}

/// The best value for Black among its first `i` candidates.
pub open spec fn black_best(h: spec_fn(Seq<Piece>) -> int, ps: Seq<Piece>, depth: int, w: BoardMove, i: int) -> int
    decreases depth + 3, 0int, i,
{
    let ms = moves_at(ps, Side::Black, depth);
    if depth < -1 || i <= 0 {
        SCORE_BOUND as int
    } else if i == 1 {
        white_value_by(h, successor(ps, depth, w, ms[0]), depth - 1)
    } else {
        min(
            black_best(h, ps, depth, w, i - 1),
            white_value_by(h, successor(ps, depth, w, ms[i - 1]), depth - 1),
        )
    }
}

/// Largest score a leaf evaluation may give.
pub const LEAF_BOUND: i64 = 100000;

/// `leaf` scores every well-formed board of at most `MAX_PIECES` pieces, as
/// `h` says of its pieces, within `LEAF_BOUND`.
pub open spec fn scores_leaves<L: Fn(&BoardState) -> i64>(leaf: L, h: spec_fn(Seq<Piece>) -> int) -> bool {
    &&& forall|b: &BoardState| b.wf() && b@.len() <= MAX_PIECES ==> #[trigger] leaf.requires((b,))
    &&& forall|b: &BoardState, r: i64|
        b.wf() && b@.len() <= MAX_PIECES && #[trigger] leaf.ensures((b,), r) ==> r == h(b@)
            && -LEAF_BOUND <= r <= LEAF_BOUND
}

/// What an alpha-beta search with window `(alpha, beta)` tells of the true
/// value `m` when it returns `v`: `v` is exact inside the window, an upper
/// bound at or below `alpha`, a lower bound at or above `beta`.
pub open spec fn bounds_value(v: int, alpha: int, beta: int, m: int) -> bool {
    &&& v <= alpha ==> m <= v
    &&& alpha < v < beta ==> m == v
    &&& v >= beta ==> m >= v
}

proof fn lemma_white_best(h: spec_fn(Seq<Piece>) -> int, ps: Seq<Piece>, depth: int, i: int)
    requires
        depth >= -1,
        1 <= i <= moves_at(ps, Side::White, depth).len(),
    ensures
        forall|k: int|
            0 <= k < i ==> white_best(h, ps, depth, i) >= #[trigger] black_value(h, 
                ps,
                depth,
                moves_at(ps, Side::White, depth)[k],
            ),
        exists|k: int|
            0 <= k < i && white_best(h, ps, depth, i) == #[trigger] black_value(h, 
                ps,
                depth,
                moves_at(ps, Side::White, depth)[k],
            ),
    decreases i,
{
    let ms = moves_at(ps, Side::White, depth);
    if i == 1 {
        assert(white_best(h, ps, depth, i) == black_value(h, ps, depth, ms[0]));
    } else {
        lemma_white_best(h, ps, depth, i - 1);
        if white_best(h, ps, depth, i - 1) < black_value(h, ps, depth, ms[i - 1]) {
            assert(white_best(h, ps, depth, i) == black_value(h, ps, depth, ms[i - 1]));
        } else {
            let k = choose|k: int|
                0 <= k < i - 1 && white_best(h, ps, depth, i - 1) == #[trigger] black_value(h, 
                    ps,
                    depth,
                    ms[k],
                );
            assert(white_best(h, ps, depth, i) == black_value(h, ps, depth, ms[k]));
        }
    }
}

proof fn lemma_black_best(h: spec_fn(Seq<Piece>) -> int, ps: Seq<Piece>, depth: int, w: BoardMove, i: int)
    requires
        depth >= -1,
        1 <= i <= moves_at(ps, Side::Black, depth).len(),
    ensures
        forall|k: int|
            0 <= k < i ==> black_best(h, ps, depth, w, i) <= #[trigger] white_value_by(h, 
                successor(ps, depth, w, moves_at(ps, Side::Black, depth)[k]),
                depth - 1,
            ),
        exists|k: int|
            0 <= k < i && black_best(h, ps, depth, w, i) == #[trigger] white_value_by(h, 
                successor(ps, depth, w, moves_at(ps, Side::Black, depth)[k]),
                depth - 1,
            ),
    decreases i,
{
    let ms = moves_at(ps, Side::Black, depth);
    if i == 1 {
        assert(black_best(h, ps, depth, w, i) == white_value_by(h, successor(ps, depth, w, ms[0]), depth - 1));
    } else {
        lemma_black_best(h, ps, depth, w, i - 1);
        if black_best(h, ps, depth, w, i - 1) > white_value_by(h, successor(ps, depth, w, ms[i - 1]), depth - 1) {
            assert(black_best(h, ps, depth, w, i) == white_value_by(h, successor(ps, depth, w, ms[i - 1]), depth - 1));
        } else {
            let k = choose|k: int|
                0 <= k < i - 1 && black_best(h, ps, depth, w, i - 1) == #[trigger] white_value_by(h, 
                    successor(ps, depth, w, ms[k]),
                    depth - 1,
                );
            assert(black_best(h, ps, depth, w, i) == white_value_by(h, successor(ps, depth, w, ms[k]), depth - 1));
        }
    }
}

/// The outcome of searching one node: its score, the principal variation
/// from it (its best move, the best reply, and so on), and how many nodes
/// were visited.
#[derive(Debug, Clone)]
pub struct MinimaxOutput {
    pub score: i64,
    pub moves: Vec<BoardMove>,
    /// The score recorded at each node of the principal variation.
    pub scores: Vec<i64>,
    pub num_leaves: u64,
    pub num_regular_nodes: u64,
    pub num_quiescent_nodes: u64,
}

impl MinimaxOutput {
    pub fn score(&self) -> (r: i64)
        ensures
            r == self.score,
    {
        self.score
    }

    pub fn num_leaves(&self) -> (r: u64)
        ensures
            r == self.num_leaves,
    {
        self.num_leaves
    }

    pub fn num_regular_nodes(&self) -> (r: u64)
        ensures
            r == self.num_regular_nodes,
    {
        self.num_regular_nodes
    }

    pub fn num_quiescent_nodes(&self) -> (r: u64)
        ensures
            r == self.num_quiescent_nodes,
    {
        self.num_quiescent_nodes
    }

    fn leaf(score: i64) -> (r: Self)
        ensures
            r.score == score,
            r.moves@.len() == 0,
            r.scores@.len() == 0,
    {
        MinimaxOutput {
            score,
            moves: Vec::new(),
            scores: Vec::new(),
            num_leaves: 1,
            num_regular_nodes: 0,
            num_quiescent_nodes: 0,
        }
    }
}

fn quiescent_key(kind: PieceKind) -> (r: i32)
    ensures
        r == material_value(kind),
{
    material_value_exec(kind) as i32
}

fn is_terminal(state: &BoardState, depth: i32) -> (r: bool)
    ensures
        r == terminal(state@, depth as int),
{
    state.get_board_end_state().is_some() || (state.is_all_pieces_stationary_with_no_cooldown()
        && depth <= 0) || depth <= -MAX_QUIESCENT_DEPTH
}

/// `order` scores any move on any board: the search sorts by it.
pub open spec fn orders_moves<O: Fn(&BoardState, &BoardMove) -> i64>(order: O) -> bool {
    forall|b: &BoardState, m: &BoardMove| #[trigger] order.requires((b, m))
}

/// The candidates of `side` at `depth`, in search order: past the horizon
/// the quiescent order; before it, every move, best first by `order` for
/// `side` (high scores favour White, low scores Black).
fn candidates<O: Fn(&BoardState, &BoardMove) -> i64>(
    state: &BoardState,
    side: Side,
    depth: i32,
    order: &O,
) -> (r: Vec<BoardMove>)
    requires
        state.wf(),
        orders_moves(*order),
    ensures
        forall|m: BoardMove| r@.contains(m) <==> moves_at(state@, side, depth as int).contains(m),
        r@.len() >= 1,
        moves_at(state@, side, depth as int).len() >= 1,
{
    if depth <= 0 {
        state.get_sorted_quiescent_moves(side, |k: PieceKind| -> (r: i32)
            ensures
                r == material_value(k),
            { quiescent_key(k) })
    } else {
        let moves = state.get_all_possible_moves(side);
        let mut keys: Vec<i64> = Vec::new();
        let mut i: usize = 0;
        while i < moves.len()
            invariant
                i <= moves@.len(),
                keys@.len() == i,
                orders_moves(*order),
            decreases moves@.len() - i,
        {
            let k = order(state, &moves[i]);
            let key = match side {
                Side::White => if k == i64::MIN { i64::MAX } else { -k },
                Side::Black => k,
            };
            keys.push(key);
            i += 1;
        }
        let r = order_by_keys(moves, keys);
        r
    }
}

/// The search from a White node: the best score White can force, as
/// `bounds_value` says of the window `(alpha, beta)`.
pub fn white_move<L: Fn(&BoardState) -> i64, O: Fn(&BoardState, &BoardMove) -> i64>(
    state: &BoardState,
    depth: i32,
    alpha: i64,
    beta: i64,
    leaf: &L,
    order: &O,
    Ghost(h): Ghost<spec_fn(Seq<Piece>) -> int>,
) -> (r: MinimaxOutput)
    requires
        scores_leaves(*leaf, h),
        orders_moves(*order),
        state.wf(),
        state@.len() <= MAX_PIECES,
        -SCORE_BOUND <= alpha < beta <= SCORE_BOUND,
        depth <= 1000000,
    ensures
        bounds_value(r.score as int, alpha as int, beta as int, white_value_by(h, state@, depth as int)),
        -LEAF_BOUND <= r.score <= LEAF_BOUND,
        r.scores@.len() == r.moves@.len(),
        forall|k: int| 0 <= k < r.scores@.len() ==> #[trigger] r.scores@[k] == r.score,
        alternates(r.moves@, Side::White),
        terminal(state@, depth as int) ==> r.moves@.len() == 0 && r.score == h(state@),
        !terminal(state@, depth as int) ==> {
            &&& r.moves@.len() >= 2
            &&& moves_at(state@, Side::White, depth as int).contains(r.moves@[0])
            &&& moves_at(state@, Side::Black, depth as int).contains(r.moves@[1])
            &&& alpha < r.score < beta ==> black_value(h, state@, depth as int, r.moves@[0]) == r.score
                && white_value_by(h, successor(state@, depth as int, r.moves@[0], r.moves@[1]), depth - 1)
                == r.score
        },
    decreases depth + 3, 1int,
{
    if is_terminal(state, depth) {
        return MinimaxOutput::leaf(leaf(state));
    }
    let ghost ps = state@;
    let ghost ms = moves_at(ps, Side::White, depth as int);
    let moves = candidates(state, Side::White, depth, order);
    let mut a = alpha;
    let mut best: i64 = -SCORE_BOUND;
    let mut best_move = BoardMove::Pass(Side::White);
    let mut best_line: Vec<BoardMove> = Vec::new();
    let mut best_scores: Vec<i64> = Vec::new();
    let mut num_leaves: u64 = 0;
    let mut num_regular_nodes: u64 = 0;
    let mut num_quiescent_nodes: u64 = 0;
    let ghost mut p: int = -SCORE_BOUND;
    let mut cut = false;
    let mut i: usize = 0;
    while i < moves.len() && !cut
        invariant
            scores_leaves(*leaf, h),
            orders_moves(*order),
            state.wf(),
            state@ == ps,
            ps.len() <= MAX_PIECES,
            -SCORE_BOUND <= alpha < beta <= SCORE_BOUND,
            -1 <= depth <= 1000000,
            !terminal(ps, depth as int),
            ms == moves_at(ps, Side::White, depth as int),
            forall|m: BoardMove| moves@.contains(m) <==> ms.contains(m),
            i <= moves@.len(),
            best_scores@.len() == best_line@.len(),
            forall|k: int| 0 <= k < best_scores@.len() ==> #[trigger] best_scores@[k] == best,
            alternates(best_line@, Side::Black),
            i > 0 ==> moves@.contains(best_move) && best_line@.len() >= 1 && moves_at(
                ps,
                Side::Black,
                depth as int,
            ).contains(best_line@[0]),
            i > 0 && alpha < best < beta ==> black_value(h, ps, depth as int, best_move) == best
                && white_value_by(h, successor(ps, depth as int, best_move, best_line@[0]), depth - 1)
                == best,
            a == if best > alpha { best } else { alpha },
            i == 0 ==> best == -SCORE_BOUND && p == -SCORE_BOUND,
            i > 0 ==> -LEAF_BOUND <= best <= LEAF_BOUND,
            !cut ==> best < beta,
            cut ==> i > 0 && best >= beta && exists|j: int|
                0 <= j < i && #[trigger] black_value(h, ps, depth as int, moves@[j]) >= best,
            !cut ==> (best <= alpha ==> p <= best),
            !cut ==> (alpha < best < beta ==> p == best),
            !cut ==> forall|j: int| 0 <= j < i ==> #[trigger] black_value(h, ps, depth as int, moves@[j]) <= p,
            !cut && i > 0 ==> exists|j: int| 0 <= j < i && #[trigger] black_value(h, ps, depth as int, moves@[j]) == p,
        decreases moves@.len() - i,
    {
        let m = moves[i];
        let child = black_move(state, depth, a, beta, &m, leaf, order, Ghost(h));
        let ghost bv = black_value(h, ps, depth as int, m);
        num_leaves = num_leaves.saturating_add(child.num_leaves);
        num_regular_nodes = num_regular_nodes.saturating_add(child.num_regular_nodes);
        num_quiescent_nodes = num_quiescent_nodes.saturating_add(child.num_quiescent_nodes);
        if depth >= 0 {
            num_regular_nodes = num_regular_nodes.saturating_add(1);
        } else {
            num_quiescent_nodes = num_quiescent_nodes.saturating_add(1);
        }
        assert(moves@[i as int] == m);
        if child.score > best {
            best = child.score;
            best_move = m;
            best_line = child.moves;
            best_scores = child.scores;
        }
        proof {
            p = if i == 0 { bv } else { max(p, bv) };
            assert(black_value(h, ps, depth as int, moves@[i as int]) == bv);
        }
        if best >= beta {
            cut = true;
        }
        if best > a {
            a = best;
        }
        i += 1;
    }
    proof {
        let mv = white_value_by(h, ps, depth as int);
        lemma_white_best(h, ps, depth as int, ms.len() as int);
        if cut {
            let j = choose|j: int| 0 <= j < i && #[trigger] black_value(h, ps, depth as int, moves@[j]) >= best;
            assert(moves@.contains(moves@[j]));
            let k = choose|k: int| 0 <= k < ms.len() && ms[k] == moves@[j];
            assert(mv >= black_value(h, ps, depth as int, ms[k]));
        } else {
            let j = choose|j: int| 0 <= j < i && #[trigger] black_value(h, ps, depth as int, moves@[j]) == p;
            assert(moves@.contains(moves@[j]));
            let k = choose|k: int| 0 <= k < ms.len() && ms[k] == moves@[j];
            assert(mv >= black_value(h, ps, depth as int, ms[k]));
            let k2 = choose|k: int| 0 <= k < ms.len() && mv == #[trigger] black_value(h, ps, depth as int, ms[k]);
            assert(ms.contains(ms[k2]));
            let j2 = choose|j: int| 0 <= j < moves@.len() && moves@[j] == ms[k2];
            assert(black_value(h, ps, depth as int, moves@[j2]) <= p);
            assert(mv == p);
        }
    }
    let ghost old_line = best_line@;
    let mut line = vec![best_move];
    line.append(&mut best_line);
    proof {
        assert(i > 0);
        lemma_moves_at_side(ps, Side::White, depth as int);
        assert(ms.contains(best_move));
        let k0 = choose|k: int| 0 <= k < ms.len() && ms[k] == best_move;
        assert(best_move.side_of() == Side::White);
        assert(line@ =~= seq![best_move] + old_line);
        assert forall|k: int| 0 <= k < line@.len() implies (#[trigger] line@[k]).side_of() == if k % 2 == 0 {
            Side::White
        } else {
            Side::Black
        } by {
            if k > 0 {
                assert(line@[k] == old_line[k - 1]);
            }
        }
    }
    let mut line_scores = vec![best];
    line_scores.append(&mut best_scores);
    MinimaxOutput {
        score: best,
        moves: line,
        scores: line_scores,
        num_leaves,
        num_regular_nodes,
        num_quiescent_nodes,
    }
}

/// The board one level down from a Black node, as `successor` says.
fn next_board(state: &BoardState, depth: i32, white: &BoardMove, black: &BoardMove) -> (r: BoardState)
    requires
        state.wf(),
        state@.len() <= MAX_PIECES,
    ensures
        r.wf(),
        r@ == successor(state@, depth as int, *white, *black),
        r@.len() <= MAX_PIECES,
{
    let mut next = state.duplicate();
    if depth <= 0 {
        next.apply_move(white);
        next.apply_move(black);
        let ghost q = next@;
        proof {
            lemma_apply_len(state@, *white);
            lemma_apply_len(apply(state@, *white), *black);
        }
        if !next.step_until_one_becomes_stationary() {
            next.step_until_stationary_with_no_cooldown();
            proof {
                lemma_ticks_len(q, settle_time(q));
            }
        } else {
            proof {
                lemma_ticks_len(q, least_left(q));
            }
        }
    } else {
        next.step(white, black);
        proof {
            lemma_apply_len(state@, *white);
            lemma_apply_len(apply(state@, *white), *black);
            lemma_ticks_len(apply(apply(state@, *white), *black), 1);
            assert(ticks(crate::step::tick(apply(apply(state@, *white), *black)), 0) == crate::step::tick(apply(apply(state@, *white), *black)));
        }
    }
    next
}

/// The search from the Black node reached by White's `pending_white_move`:
/// the best score Black can force, as `bounds_value` says.
pub fn black_move<L: Fn(&BoardState) -> i64, O: Fn(&BoardState, &BoardMove) -> i64>(
    state: &BoardState,
    depth: i32,
    alpha: i64,
    beta: i64,
    pending_white_move: &BoardMove,
    leaf: &L,
    order: &O,
    Ghost(h): Ghost<spec_fn(Seq<Piece>) -> int>,
) -> (r: MinimaxOutput)
    requires
        scores_leaves(*leaf, h),
        orders_moves(*order),
        state.wf(),
        state@.len() <= MAX_PIECES,
        -SCORE_BOUND <= alpha < beta <= SCORE_BOUND,
        depth <= 1000000,
    ensures
        bounds_value(
            r.score as int,
            alpha as int,
            beta as int,
            black_value(h, state@, depth as int, *pending_white_move),
        ),
        -LEAF_BOUND <= r.score <= LEAF_BOUND,
        r.scores@.len() == r.moves@.len(),
        forall|k: int| 0 <= k < r.scores@.len() ==> #[trigger] r.scores@[k] == r.score,
        alternates(r.moves@, Side::Black),
        terminal(state@, depth as int) ==> r.moves@.len() == 0 && r.score == h(state@),
        !terminal(state@, depth as int) ==> {
            &&& r.moves@.len() >= 1
            &&& moves_at(state@, Side::Black, depth as int).contains(r.moves@[0])
            &&& alpha < r.score < beta ==> white_value_by(
                h,
                successor(state@, depth as int, *pending_white_move, r.moves@[0]),
                depth - 1,
            ) == r.score
        },
    decreases depth + 3, 0int,
{
    if is_terminal(state, depth) {
        return MinimaxOutput::leaf(leaf(state));
    }
    let ghost ps = state@;
    let ghost w = *pending_white_move;
    let ghost ms = moves_at(ps, Side::Black, depth as int);
    let moves = candidates(state, Side::Black, depth, order);
    let mut b = beta;
    let mut best: i64 = SCORE_BOUND;
    let mut best_move = BoardMove::Pass(Side::Black);
    let mut best_line: Vec<BoardMove> = Vec::new();
    let mut best_scores: Vec<i64> = Vec::new();
    let mut num_leaves: u64 = 0;
    let mut num_regular_nodes: u64 = 0;
    let mut num_quiescent_nodes: u64 = 0;
    let ghost mut p: int = SCORE_BOUND as int;
    let mut cut = false;
    let mut i: usize = 0;
    while i < moves.len() && !cut
        invariant
            scores_leaves(*leaf, h),
            orders_moves(*order),
            state.wf(),
            state@ == ps,
            w == *pending_white_move,
            ps.len() <= MAX_PIECES,
            -SCORE_BOUND <= alpha < beta <= SCORE_BOUND,
            -1 <= depth <= 1000000,
            !terminal(ps, depth as int),
            ms == moves_at(ps, Side::Black, depth as int),
            forall|m: BoardMove| moves@.contains(m) <==> ms.contains(m),
            i <= moves@.len(),
            best_scores@.len() == best_line@.len(),
            forall|k: int| 0 <= k < best_scores@.len() ==> #[trigger] best_scores@[k] == best,
            alternates(best_line@, Side::White),
            i > 0 ==> moves@.contains(best_move),
            i > 0 && alpha < best < beta ==> white_value_by(
                h,
                successor(ps, depth as int, w, best_move),
                depth - 1,
            ) == best,
            b == if best < beta { best } else { beta },
            i == 0 ==> best == SCORE_BOUND && p == SCORE_BOUND,
            i > 0 ==> -LEAF_BOUND <= best <= LEAF_BOUND,
            !cut ==> best > alpha,
            cut ==> i > 0 && best <= alpha && exists|j: int|
                0 <= j < i && #[trigger] white_value_by(h, successor(ps, depth as int, w, moves@[j]), depth - 1) <= best,
            !cut ==> (best >= beta ==> p >= best),
            !cut ==> (alpha < best < beta ==> p == best),
            !cut ==> forall|j: int| 0 <= j < i ==> #[trigger] white_value_by(h, successor(ps, depth as int, w, moves@[j]), depth - 1) >= p,
            !cut && i > 0 ==> exists|j: int| 0 <= j < i && #[trigger] white_value_by(h, successor(ps, depth as int, w, moves@[j]), depth - 1) == p,
        decreases moves@.len() - i,
    {
        let m = moves[i];
        let next = next_board(state, depth, pending_white_move, &m);
        let child = white_move(&next, depth - 1, alpha, b, leaf, order, Ghost(h));
        let ghost wv = white_value_by(h, successor(ps, depth as int, w, m), depth - 1);
        num_leaves = num_leaves.saturating_add(child.num_leaves);
        num_regular_nodes = num_regular_nodes.saturating_add(child.num_regular_nodes);
        num_quiescent_nodes = num_quiescent_nodes.saturating_add(child.num_quiescent_nodes);
        if depth >= 0 {
            num_regular_nodes = num_regular_nodes.saturating_add(1);
        } else {
            num_quiescent_nodes = num_quiescent_nodes.saturating_add(1);
        }
        assert(moves@[i as int] == m);
        if child.score < best {
            best = child.score;
            best_move = m;
            best_line = child.moves;
            best_scores = child.scores;
        }
        proof {
            p = if i == 0 { wv } else { min(p, wv) };
            assert(white_value_by(h, successor(ps, depth as int, w, moves@[i as int]), depth - 1) == wv);
        }
        if best <= alpha {
            cut = true;
        }
        if best < b {
            b = best;
        }
        i += 1;
    }
    proof {
        let mv = black_value(h, ps, depth as int, w);
        lemma_black_best(h, ps, depth as int, w, ms.len() as int);
        if cut {
            let j = choose|j: int| 0 <= j < i && #[trigger] white_value_by(h, successor(ps, depth as int, w, moves@[j]), depth - 1) <= best;
            assert(moves@.contains(moves@[j]));
            let k = choose|k: int| 0 <= k < ms.len() && ms[k] == moves@[j];
            assert(mv <= white_value_by(h, successor(ps, depth as int, w, ms[k]), depth - 1));
        } else {
            let j = choose|j: int| 0 <= j < i && #[trigger] white_value_by(h, successor(ps, depth as int, w, moves@[j]), depth - 1) == p;
            assert(moves@.contains(moves@[j]));
            let k = choose|k: int| 0 <= k < ms.len() && ms[k] == moves@[j];
            assert(mv <= white_value_by(h, successor(ps, depth as int, w, ms[k]), depth - 1));
            let k2 = choose|k: int| 0 <= k < ms.len() && mv == #[trigger] white_value_by(h, successor(ps, depth as int, w, ms[k]), depth - 1);
            assert(ms.contains(ms[k2]));
            let j2 = choose|j: int| 0 <= j < moves@.len() && moves@[j] == ms[k2];
            assert(white_value_by(h, successor(ps, depth as int, w, moves@[j2]), depth - 1) >= p);
            assert(mv == p);
        }
    }
    let ghost old_line = best_line@;
    let mut line = vec![best_move];
    line.append(&mut best_line);
    proof {
        assert(i > 0);
        lemma_moves_at_side(ps, Side::Black, depth as int);
        assert(ms.contains(best_move));
        let k0 = choose|k: int| 0 <= k < ms.len() && ms[k] == best_move;
        assert(best_move.side_of() == Side::Black);
        assert(line@ =~= seq![best_move] + old_line);
        assert forall|k: int| 0 <= k < line@.len() implies (#[trigger] line@[k]).side_of() == if k % 2 == 0 {
            Side::Black
        } else {
            Side::White
        } by {
            if k > 0 {
                assert(line@[k] == old_line[k - 1]);
            }
        }
    }
    let mut line_scores = vec![best];
    line_scores.append(&mut best_scores);
    MinimaxOutput {
        score: best,
        moves: line,
        scores: line_scores,
        num_leaves,
        num_regular_nodes,
        num_quiescent_nodes,
    }
}

/// The result of a search from the root: the board searched, the depth,
/// the score, the principal variation, alternating White and Black moves,
/// and how many nodes were visited.
#[derive(Debug, Clone)]
pub struct MinimaxOutputInfo {
    pub board: BoardState,
    pub search_depth: u32,
    pub score: i64,
    pub num_leaves: u64,
    pub num_regular_nodes: u64,
    pub num_quiescent_nodes: u64,
    pub moves: Vec<BoardMove>,
    /// The score recorded at each node of the principal variation: all equal `score`.
    pub scores: Vec<i64>,
}

/// Searches `depth` plies from White's side with the full window, leaves
/// scored by `leaf` and moves tried in the order `order` gives: the score is
/// the exhaustive minimax value `white_value_by(h, ..)`, whatever the order.
pub fn search_white_with<L: Fn(&BoardState) -> i64, O: Fn(&BoardState, &BoardMove) -> i64>(
    board: &BoardState,
    depth: u32,
    leaf: &L,
    order: &O,
    Ghost(h): Ghost<spec_fn(Seq<Piece>) -> int>,
) -> (r: MinimaxOutputInfo)
    requires
        scores_leaves(*leaf, h),
        orders_moves(*order),
        board.wf(),
        board@.len() <= MAX_PIECES,
        depth <= 1000000,
    ensures
        r.score == white_value_by(h, board@, depth as int),
        r.board@ == board@,
        r.search_depth == depth,
        r.scores@.len() == r.moves@.len(),
        forall|k: int| 0 <= k < r.scores@.len() ==> #[trigger] r.scores@[k] == r.score,
        alternates(r.moves@, Side::White),
        terminal(board@, depth as int) ==> r.moves@.len() == 0,
        !terminal(board@, depth as int) ==> {
            &&& r.moves@.len() >= 2
            &&& moves_at(board@, Side::White, depth as int).contains(r.moves@[0])
            &&& moves_at(board@, Side::Black, depth as int).contains(r.moves@[1])
            &&& black_value(h, board@, depth as int, r.moves@[0]) == r.score
            &&& white_value_by(h, successor(board@, depth as int, r.moves@[0], r.moves@[1]), depth - 1)
                == r.score
        },
{
    let out = white_move(board, depth as i32, -SCORE_BOUND, SCORE_BOUND, leaf, order, Ghost(h));
    MinimaxOutputInfo {
        board: board.duplicate(),
        search_depth: depth,
        score: out.score,
        num_leaves: out.num_leaves,
        num_regular_nodes: out.num_regular_nodes,
        num_quiescent_nodes: out.num_quiescent_nodes,
        moves: out.moves,
        scores: out.scores,
    }
}

/// Searches `depth` plies from White's side with the material heuristic at
/// the leaves and no move ordering: the score is the exhaustive minimax
/// value `white_value` of the board.
pub fn search_white(board: &BoardState, depth: u32) -> (r: MinimaxOutputInfo)
    requires
        board.wf(),
        board@.len() <= MAX_PIECES,
        depth <= 1000000,
    ensures
        r.score == white_value(board@, depth as int),
        r.board@ == board@,
        r.search_depth == depth,
        r.scores@.len() == r.moves@.len(),
        forall|k: int| 0 <= k < r.scores@.len() ==> #[trigger] r.scores@[k] == r.score,
        alternates(r.moves@, Side::White),
        terminal(board@, depth as int) ==> r.moves@.len() == 0,
        !terminal(board@, depth as int) ==> {
            &&& r.moves@.len() >= 2
            &&& moves_at(board@, Side::White, depth as int).contains(r.moves@[0])
            &&& moves_at(board@, Side::Black, depth as int).contains(r.moves@[1])
            &&& black_value(material_leaf(), board@, depth as int, r.moves@[0]) == r.score
            &&& white_value_by(
                material_leaf(),
                successor(board@, depth as int, r.moves@[0], r.moves@[1]),
                depth - 1,
            ) == r.score
        },
{
    let leaf = |b: &BoardState| -> (r: i64)
        requires
            b.wf(),
            b@.len() <= MAX_PIECES,
        ensures
            r == leaf_score(b@),
            -LEAF_BOUND <= r <= LEAF_BOUND,
        { evaluate_material_heuristic(b) };
    let order = |_b: &BoardState, _m: &BoardMove| -> (k: i64) { 0 };
    search_white_with(board, depth, &leaf, &order, Ghost(material_leaf()))
}

impl MinimaxOutputInfo {
    /// The boards along the principal variation: the root, then the board
    /// after each round of a White move and the Black reply, for at most
    /// `search_depth` rounds.
    pub fn states(&self) -> (r: Vec<BoardState>)
        requires
            self.board.wf(),
        ensures
            r@.len() == 1 + min(self.search_depth as int, (self.moves@.len() / 2) as int),
            r@[0]@ == self.board@,
            forall|k: int|
                0 <= k < r@.len() - 1 ==> #[trigger] r@[k + 1]@ == step_spec(
                    r@[k]@,
                    self.moves@[2 * k],
                    self.moves@[2 * k + 1],
                ),
    {
        let mut board = self.board.duplicate();
        let mut out: Vec<BoardState> = Vec::new();
        out.push(board.duplicate());
        let mut round: usize = 0;
        while round < self.search_depth as usize && round < self.moves.len() / 2
            invariant
                board.wf(),
                round <= self.moves@.len() / 2,
                round <= self.search_depth,
                out@.len() == round + 1,
                out@[round as int]@ == board@,
                out@[0]@ == self.board@,
                forall|k: int|
                    0 <= k < out@.len() - 1 ==> #[trigger] out@[k + 1]@ == step_spec(
                        out@[k]@,
                        self.moves@[2 * k],
                        self.moves@[2 * k + 1],
                    ),
            decreases self.search_depth - round,
        {
            let ghost before = board@;
            board.step(&self.moves[2 * round], &self.moves[2 * round + 1]);
            out.push(board.duplicate());
            assert(out@[round as int]@ == before);
            round += 1;
        }
        out
    }

    /// The first move of the principal variation that belongs to `side`.
    pub fn get_first_move_of_side(&self, side: Side) -> (r: BoardMove)
        ensures
            self.moves@.len() > 0 && self.moves@[0].side_of() == side ==> r == self.moves@[0],
            (self.moves@.len() > 1 && self.moves@[0].side_of() != side && self.moves@[1].side_of()
                == side) ==> r == self.moves@[1],
            !(self.moves@.len() > 0 && self.moves@[0].side_of() == side) && !(self.moves@.len() > 1
                && self.moves@[1].side_of() == side) ==> r == BoardMove::Pass(side),
    {
        if self.moves.len() > 0 && self.moves[0].side() == side {
            self.moves[0]
        } else if self.moves.len() > 1 && self.moves[1].side() == side {
            self.moves[1]
        } else {
            BoardMove::Pass(side)
        }
    }
}

/// Depth of the searches that choose a move.
pub const SEARCH_DEPTH: u32 = 2;

/// The move `side` plays after a search of `SEARCH_DEPTH` plies with the
/// material heuristic: its first move on the principal variation, which is
/// one of its possible moves, or the pass when the game is already decided.
pub fn move_from_minimax_with_heuristic(board: &BoardState, side: Side) -> (r: BoardMove)
    requires
        board.wf(),
        board@.len() <= MAX_PIECES,
    ensures
        all_moves(board@, side).contains(r),
        side == Side::White && !terminal(board@, SEARCH_DEPTH as int) ==> black_value(
            material_leaf(),
            board@,
            SEARCH_DEPTH as int,
            r,
        ) == white_value(board@, SEARCH_DEPTH as int),
        side == Side::Black && !terminal(board@, SEARCH_DEPTH as int) ==> exists|w: BoardMove|
            white_value_by(
                material_leaf(),
                successor(board@, SEARCH_DEPTH as int, w, r),
                SEARCH_DEPTH - 1,
            ) == white_value(board@, SEARCH_DEPTH as int),
{
    let out = search_white(board, SEARCH_DEPTH);
    let r = out.get_first_move_of_side(side);
    proof {
        let ps = board@;
        let am = all_moves(ps, side);
        assert(am[am.len() - 1] == BoardMove::Pass(side));
        if !terminal(ps, SEARCH_DEPTH as int) {
            assert(out.moves@[0].side_of() == Side::White);
            assert(out.moves@[1].side_of() == Side::Black);
        }
    }
    r
}

} // verus!
