//! Advancing time by many ticks at once.
//!
//! While at most one piece is in transit, nothing but that piece can take
//! anything, and it takes exactly the enemies at rest that it sweeps over
//! before it lands. So `n` ticks can be done in one pass: remove what the
//! lone mover sweeps within `n` ticks, then move everything on by `n`. The
//! lemmas below prove this equal to `n` single ticks.
use vstd::prelude::*;
use crate::board::{pieces_wf, BoardState};
use crate::geometry::lemma_split;
use crate::piece::{Piece, PieceState};
use crate::step::{
    sat_sub, advance, advance_by, at_x, at_y, dur, knight_allows, min, spared, sweeps, tick, ticks,
    turns_left_of, vel_x, vel_y,
};

verus! {

/// No two different pieces are in transit.
pub open spec fn one_mover(ps: Seq<Piece>) -> bool {
    forall|i: int, j: int|
        0 <= i < ps.len() && 0 <= j < ps.len() && #[trigger] ps[i].is_moving()
            && #[trigger] ps[j].is_moving() ==> ps[i] == ps[j]
}

/// `n` ticks in one pass: what some piece sweeps within `n` ticks is removed,
/// the rest moves on by `n` ticks.
pub open spec fn bulk(ps: Seq<Piece>, n: nat) -> Seq<Piece> {
    ps.filter(spared(ps, n)).map_values(advance_by(n))
}

/// Every piece at rest, none cooling down.
pub open spec fn settled(ps: Seq<Piece>) -> bool {
    forall|i: int| 0 <= i < ps.len() ==> (#[trigger] ps[i]).is_ready()
}

pub proof fn lemma_advance_wf(p: Piece, t: nat)
    requires
        p.wf(),
    ensures
        advance(p, t).wf(),
{
}

proof fn lemma_advance_compose(p: Piece, n: nat)
    requires
        p.wf(),
        n >= 1,
    ensures
        advance(advance(p, 1), (n - 1) as nat) == advance(p, n),
{
}

proof fn lemma_filter_map_filter(
    s: Seq<Piece>,
    p: spec_fn(Piece) -> bool,
    f: spec_fn(Piece) -> Piece,
    q: spec_fn(Piece) -> bool,
)
    ensures
        s.filter(p).map_values(f).filter(q) == s.filter(|x: Piece| p(x) && q(f(x))).map_values(
            f,
        ),
    decreases s.len(),
{
    let both = |x: Piece| p(x) && q(f(x));
    if s.len() == 0 {
        assert(s.filter(p) =~= Seq::<Piece>::empty()) by {
            reveal(Seq::filter);
        }
        assert(s.filter(both) =~= Seq::<Piece>::empty()) by {
            reveal(Seq::filter);
        }
        assert(s.filter(p).map_values(f) =~= Seq::<Piece>::empty());
        assert(Seq::<Piece>::empty().filter(q) =~= Seq::<Piece>::empty()) by {
            reveal(Seq::filter);
        }
        assert(s.filter(both).map_values(f) =~= Seq::<Piece>::empty());
    } else {
        let r = s.drop_last();
        let x = s.last();
        assert(s =~= r.push(x));
        lemma_filter_map_filter(r, p, f, q);
        r.lemma_filter_push(x, p);
        r.lemma_filter_push(x, both);
        if p(x) {
            assert(r.filter(p).push(x).map_values(f) =~= r.filter(p).map_values(f).push(f(x)));
            r.filter(p).map_values(f).lemma_filter_push(f(x), q);
            if q(f(x)) {
                assert(r.filter(both).push(x).map_values(f) =~= r.filter(both).map_values(
                    f,
                ).push(f(x)));
            }
        }
    }
}

proof fn lemma_filter_ext(s: Seq<Piece>, keep_a: spec_fn(Piece) -> bool, keep_b: spec_fn(Piece) -> bool)
    requires
        forall|i: int| 0 <= i < s.len() ==> keep_a(#[trigger] s[i]) == keep_b(s[i]),
    ensures
        s.filter(keep_a) == s.filter(keep_b),
    decreases s.len(),
{
    if s.len() == 0 {
        assert(s.filter(keep_a) =~= s) by {
            reveal(Seq::filter);
        }
        assert(s.filter(keep_b) =~= s) by {
            reveal(Seq::filter);
        }
    } else {
        let r = s.drop_last();
        let x = s.last();
        assert(s =~= r.push(x));
        assert forall|i: int| 0 <= i < r.len() implies keep_a(#[trigger] r[i]) == keep_b(r[i]) by {
            assert(r[i] == s[i]);
        }
        lemma_filter_ext(r, keep_a, keep_b);
        r.lemma_filter_push(x, keep_a);
        r.lemma_filter_push(x, keep_b);
        assert(keep_a(s[s.len() - 1]) == keep_b(s[s.len() - 1]));
    }
}

/// An element of `tick(ps)` is a survivor of `ps`, moved on by one tick.
proof fn lemma_tick_element(ps: Seq<Piece>, j: int)
    requires
        0 <= j < tick(ps).len(),
    ensures
        exists|i: int|
            0 <= i < ps.len() && spared(ps, 1)(ps[i]) && tick(ps)[j] == advance(ps[i], 1),
{
    let sv = ps.filter(spared(ps, 1));
    ps.lemma_filter_pred(spared(ps, 1), j);
    assert(sv.contains(sv[j]));
    ps.lemma_filter_contains_rev(spared(ps, 1), sv[j]);
    let i = choose|i: int| 0 <= i < ps.len() && ps[i] == sv[j];
    assert(tick(ps)[j] == advance(sv[j], 1));
}

/// A survivor of `ps`, moved on by one tick, is in `tick(ps)`.
proof fn lemma_tick_member(ps: Seq<Piece>, i: int)
    requires
        0 <= i < ps.len(),
        spared(ps, 1)(ps[i]),
    ensures
        exists|j: int| 0 <= j < tick(ps).len() && tick(ps)[j] == advance(ps[i], 1),
{
    let sv = ps.filter(spared(ps, 1));
    ps.lemma_filter_contains(spared(ps, 1), i);
    let j = choose|j: int| 0 <= j < sv.len() && sv[j] == ps[i];
    assert(tick(ps)[j] == advance(ps[i], 1));
}

proof fn lemma_tick_wf(ps: Seq<Piece>)
    requires
        pieces_wf(ps),
    ensures
        pieces_wf(tick(ps)),
{
    assert forall|j: int| 0 <= j < tick(ps).len() implies (#[trigger] tick(ps)[j]).wf() by {
        lemma_tick_element(ps, j);
        let i = choose|i: int|
            0 <= i < ps.len() && spared(ps, 1)(ps[i]) && tick(ps)[j] == advance(ps[i], 1);
        lemma_advance_wf(ps[i], 1);
    }
}

proof fn lemma_tick_keeps(ps: Seq<Piece>)
    requires
        pieces_wf(ps),
        one_mover(ps),
    ensures
        pieces_wf(tick(ps)),
        one_mover(tick(ps)),
{
    lemma_tick_wf(ps);
    assert forall|a: int, b: int|
        0 <= a < tick(ps).len() && 0 <= b < tick(ps).len() && #[trigger] tick(ps)[a].is_moving()
            && #[trigger] tick(ps)[b].is_moving() implies tick(ps)[a] == tick(ps)[b] by {
        lemma_tick_element(ps, a);
        lemma_tick_element(ps, b);
        let ia = choose|i: int|
            0 <= i < ps.len() && spared(ps, 1)(ps[i]) && tick(ps)[a] == advance(ps[i], 1);
        let ib = choose|i: int|
            0 <= i < ps.len() && spared(ps, 1)(ps[i]) && tick(ps)[b] == advance(ps[i], 1);
        assert(ps[ia].is_moving());
        assert(ps[ib].is_moving());
    }
}

/// One tick further: the mover's start is one velocity step on.
proof fn lemma_mover_shift(m: Piece)
    requires
        m.wf(),
        m.is_moving(),
        turns_left_of(m) >= 2,
    ensures
        advance(m, 1).is_moving(),
        dur(advance(m, 1)) == dur(m),
        vel_x(advance(m, 1)) == vel_x(m),
        vel_y(advance(m, 1)) == vel_y(m),
        at_x(advance(m, 1)) == at_x(m) + vel_x(m),
        at_y(advance(m, 1)) == at_y(m) + vel_y(m),
        turns_left_of(advance(m, 1)) == turns_left_of(m) - 1,
        advance(m, 1).priority() == m.priority() + 1,
        advance(m, 1).side == m.side,
        advance(m, 1).kind == m.kind,
        advance(m, 1).state->Moving_target.target == m.state->Moving_target.target,
{
    if let PieceState::Moving { origin, target } = m.state {
        let pr = target.priority as int;
        let vx = vel_x(m);
        let vy = vel_y(m);
        assert((pr + 1) * vx == pr * vx + vx) by (nonlinear_arith);
        assert((pr + 1) * vy == pr * vy + vy) by (nonlinear_arith);
    }
}

/// Being swept within `n` ticks is being taken in the coming tick, or being
/// swept within `n - 1` ticks after it.
proof fn lemma_swept_split(ps: Seq<Piece>, p: Piece, n: nat)
    requires
        pieces_wf(ps),
        one_mover(ps),
        ps.contains(p),
        n >= 2,
    ensures
        spared(ps, n)(p) == (spared(ps, 1)(p) && spared(tick(ps), (n - 1) as nat)(
            advance(p, 1),
        )),
{
    let q = advance(p, 1);
    let ip = choose|i: int| 0 <= i < ps.len() && ps[i] == p;
    if exists|k: int| 0 <= k < ps.len() && ps[k].is_moving() && ps[k].side != p.side {
        let k = choose|k: int| 0 <= k < ps.len() && ps[k].is_moving() && ps[k].side != p.side;
        let m = ps[k];
        assert(!p.is_moving()) by {
            if p.is_moving() {
                assert(ps[ip].is_moving() && ps[k].is_moving());
            }
        }
        // Only `m` can sweep anything in `ps`.
        assert forall|i: int, t: nat| 0 <= i < ps.len() && #[trigger] sweeps(ps[i], p, t) implies ps[i]
            == m by {
            assert(ps[i].is_moving() && ps[k].is_moving());
        }
        // `m` survives the coming tick.
        assert(spared(ps, 1)(m)) by {
            assert forall|i: int| 0 <= i < ps.len() implies !#[trigger] sweeps(ps[i], m, 1) by {
                if sweeps(ps[i], m, 1) {
                    assert(ps[i].is_moving() && ps[k].is_moving());
                }
            }
        }
        let tl = turns_left_of(m);
        assert(m.wf());
        assert(p.wf());
        if tl == 1 {
            // `m` lands in the coming tick; after it nothing moves.
            assert forall|j: int| 0 <= j < tick(ps).len() implies !#[trigger] sweeps(
                tick(ps)[j],
                q,
                (n - 1) as nat,
            ) by {
                lemma_tick_element(ps, j);
                let i = choose|i: int|
                    0 <= i < ps.len() && spared(ps, 1)(ps[i]) && tick(ps)[j] == advance(ps[i], 1);
                if ps[i].is_moving() {
                    assert(ps[i].is_moving() && ps[k].is_moving());
                }
            }
            if sweeps(m, p, n) {
                assert(sweeps(ps[k], p, 1));
            }
            if sweeps(m, p, 1) {
                assert(sweeps(ps[k], p, n));
            }
        } else {
            let m2 = advance(m, 1);
            lemma_mover_shift(m);
            lemma_tick_member(ps, k);
            let jm = choose|j: int| 0 <= j < tick(ps).len() && tick(ps)[j] == m2;
            // In `tick(ps)` only `m2` can sweep anything.
            assert forall|j: int| 0 <= j < tick(ps).len() && #[trigger] sweeps(
                tick(ps)[j],
                q,
                (n - 1) as nat,
            ) implies tick(ps)[j] == m2 by {
                lemma_tick_element(ps, j);
                let i = choose|i: int|
                    0 <= i < ps.len() && spared(ps, 1)(ps[i]) && tick(ps)[j] == advance(ps[i], 1);
                assert(ps[i].is_moving());
                assert(ps[i].is_moving() && ps[k].is_moving());
            }
            let ax = at_x(p) * dur(m) - at_x(m) * dur(p);
            let ay = at_y(p) * dur(m) - at_y(m) * dur(p);
            let bx = vel_x(p) * dur(m) - vel_x(m) * dur(p);
            let by = vel_y(p) * dur(m) - vel_y(m) * dur(p);
            let span = min(n as int, tl);
            lemma_split(ax, ay, bx, by, dur(p) * dur(m), span);
            assert(at_x(q) * dur(m2) - at_x(m2) * dur(q) == ax + bx);
            assert(at_y(q) * dur(m2) - at_y(m2) * dur(q) == ay + by);
            assert(vel_x(q) * dur(m2) - vel_x(m2) * dur(q) == bx);
            assert(vel_y(q) * dur(m2) - vel_y(m2) * dur(q) == by);
            assert(dur(q) * dur(m2) == dur(p) * dur(m));
            assert(min((n - 1) as int, turns_left_of(m2)) == span - 1);
            assert(min(1, tl) == 1);
            assert(knight_allows(m2, q) == knight_allows(m, p));
            assert(sweeps(m, p, n) == (sweeps(m, p, 1) || sweeps(m2, q, (n - 1) as nat)));
            if sweeps(m, p, n) {
                assert(sweeps(ps[k], p, n));
                if sweeps(m, p, 1) {
                    assert(sweeps(ps[k], p, 1));
                } else {
                    assert(sweeps(tick(ps)[jm], q, (n - 1) as nat));
                }
            }
            if sweeps(m, p, 1) {
                assert(sweeps(ps[k], p, n));
            }
            if sweeps(m2, q, (n - 1) as nat) {
                assert(sweeps(ps[k], p, n));
            }
        }
    } else {
        assert forall|i: int, t: nat| 0 <= i < ps.len() implies !#[trigger] sweeps(ps[i], p, t) by {
        }
        assert forall|j: int| 0 <= j < tick(ps).len() implies !#[trigger] sweeps(
            tick(ps)[j],
            q,
            (n - 1) as nat,
        ) by {
            lemma_tick_element(ps, j);
            let i = choose|i: int|
                0 <= i < ps.len() && spared(ps, 1)(ps[i]) && tick(ps)[j] == advance(ps[i], 1);
            if sweeps(tick(ps)[j], q, (n - 1) as nat) {
                assert(ps[i].is_moving() && ps[i].side != p.side);
            }
        }
    }
}

/// Doing `n >= 1` ticks in one pass is doing them one at a time, as long as
/// at most one piece is in transit.
pub proof fn lemma_bulk_is_ticks(ps: Seq<Piece>, n: nat)
    requires
        pieces_wf(ps),
        one_mover(ps),
        n >= 1,
    ensures
        bulk(ps, n) == ticks(ps, n),
    decreases n,
{
    if n == 1 {
        assert(ticks(tick(ps), 0) == tick(ps));
    } else {
        let t = tick(ps);
        lemma_tick_keeps(ps);
        lemma_bulk_is_ticks(t, (n - 1) as nat);
        let f1 = advance_by(1);
        let q = spared(t, (n - 1) as nat);
        lemma_filter_map_filter(ps, spared(ps, 1), f1, q);
        let both = |x: Piece| spared(ps, 1)(x) && q(f1(x));
        assert forall|i: int| 0 <= i < ps.len() implies both(#[trigger] ps[i]) == spared(ps, n)(
            ps[i],
        ) by {
            assert(ps.contains(ps[i]));
            lemma_swept_split(ps, ps[i], n);
        }
        lemma_filter_ext(ps, both, spared(ps, n));
        let kept = ps.filter(spared(ps, n));
        assert forall|i: int| 0 <= i < kept.len() implies (#[trigger] kept[i]).wf() by {
            ps.lemma_filter_pred(spared(ps, n), i);
            assert(kept.contains(kept[i]));
            ps.lemma_filter_contains_rev(spared(ps, n), kept[i]);
        }
        assert forall|i: int| 0 <= i < kept.len() implies advance(advance(#[trigger] kept[i], 1), (n
            - 1) as nat) == advance(kept[i], n) by {
            lemma_advance_compose(kept[i], n);
        }
        assert(kept.map_values(f1).map_values(advance_by((n - 1) as nat)) =~= kept.map_values(
            advance_by(n),
        ));
    }
}

pub proof fn lemma_ticks_add(ps: Seq<Piece>, a: nat, b: nat)
    ensures
        ticks(ticks(ps, a), b) == ticks(ps, a + b),
    decreases a,
{
    if a > 0 {
        lemma_ticks_add(tick(ps), (a - 1) as nat, b);
        assert((a + b - 1) as nat == (a - 1) as nat + b);
    }
}

proof fn lemma_advance_zero(p: Piece)
    requires
        p.wf(),
    ensures
        advance(p, 0) == p,
{
    match p.state {
        PieceState::Stationary { position, cooldown } => {
            assert(sat_sub(cooldown, 0) == cooldown);
            assert(advance(p, 0).state == p.state);
            assert(advance(p, 0).side == p.side);
            assert(advance(p, 0).kind == p.kind);
        },
        PieceState::Moving { origin, target } => {
            if target.turns_left == 0 {
            } else {
                assert(advance(p, 0).state->Moving_target == target);
                assert(advance(p, 0).state == p.state);
                assert(advance(p, 0).side == p.side);
                assert(advance(p, 0).kind == p.kind);
            }
        },
    }
}

/// Every piece after `n` ticks is some piece of `ps` moved on by `n` ticks.
proof fn lemma_ticks_element(ps: Seq<Piece>, n: nat, j: int)
    requires
        pieces_wf(ps),
        0 <= j < ticks(ps, n).len(),
    ensures
        exists|i: int| 0 <= i < ps.len() && ticks(ps, n)[j] == advance(ps[i], n),
    decreases n,
{
    if n == 0 {
        lemma_advance_zero(ps[j]);
    } else {
        lemma_tick_wf(ps);
        lemma_ticks_element(tick(ps), (n - 1) as nat, j);
        let i1 = choose|i: int|
            0 <= i < tick(ps).len() && ticks(tick(ps), (n - 1) as nat)[j] == advance(
                tick(ps)[i],
                (n - 1) as nat,
            );
        lemma_tick_element(ps, i1);
        let i0 = choose|i: int|
            0 <= i < ps.len() && spared(ps, 1)(ps[i]) && tick(ps)[i1] == advance(ps[i], 1);
        lemma_advance_compose(ps[i0], n);
    }
}

/// The most ticks any piece still has to travel.
pub open spec fn most_left(ps: Seq<Piece>) -> nat
    decreases ps.len(),
{
    if ps.len() == 0 {
        0
    } else {
        let rest = most_left(ps.drop_last());
        let last = turns_left_of(ps.last());
        if last > rest {
            last as nat
        } else {
            rest
        }
    }
}

/// Ticks after which every piece has landed and cooled down.
pub open spec fn settle_time(ps: Seq<Piece>) -> nat {
    most_left(ps) + crate::piece::PIECE_COOLDOWN as nat
}

/// The least number of ticks before some piece in transit lands.
pub open spec fn least_left(ps: Seq<Piece>) -> nat {
    choose|k: nat| least_turns_left(ps, k)
}

pub proof fn lemma_least_unique(ps: Seq<Piece>, k: nat)
    requires
        least_turns_left(ps, k),
    ensures
        least_left(ps) == k,
{
    let j = least_left(ps);
    assert(least_turns_left(ps, j));
    let a = choose|i: int| 0 <= i < ps.len() && ps[i].is_moving() && turns_left_of(ps[i]) == k;
    let b = choose|i: int| 0 <= i < ps.len() && ps[i].is_moving() && turns_left_of(ps[i]) == j;
    assert(ps[a].is_moving() && ps[b].is_moving());
}

/// After `k + 1` ticks every piece on the board is a piece of `ps` moved on
/// by `k + 1` ticks; one that landed in the first tick stands on its target
/// with `PIECE_COOLDOWN - k` ticks of cooldown left, none once `k` reaches
/// `PIECE_COOLDOWN`.
pub proof fn lemma_cooldown_over_ticks(ps: Seq<Piece>, k: nat, j: int)
    requires
        pieces_wf(ps),
        0 <= j < ticks(ps, k + 1).len(),
    ensures
        exists|i: int|
            0 <= i < ps.len() && ticks(ps, k + 1)[j] == advance(ps[i], k + 1) && (ps[i].is_moving()
                && turns_left_of(ps[i]) == 1 ==> ticks(ps, k + 1)[j].state == (PieceState::Stationary {
                position: ps[i].state->Moving_target.target,
                cooldown: if k <= crate::piece::PIECE_COOLDOWN {
                    (crate::piece::PIECE_COOLDOWN - k) as u32
                } else {
                    0
                },
            })),
{
    lemma_ticks_element(ps, k + 1, j);
}

/// Some piece is in transit, and none has fewer than `k` ticks left.
pub open spec fn least_turns_left(ps: Seq<Piece>, k: nat) -> bool {
    &&& exists|i: int| 0 <= i < ps.len() && ps[i].is_moving() && turns_left_of(ps[i]) == k
    &&& forall|i: int| 0 <= i < ps.len() && #[trigger] ps[i].is_moving() ==> k <= turns_left_of(
        ps[i],
    )
}

impl BoardState {
    /// Whether at most one piece is in transit.
    fn has_one_mover(&self) -> (r: bool)
        ensures
            r ==> one_mover(self@),
    {
        let mut seen: Option<usize> = None;
        let mut i: usize = 0;
        while i < self.pieces.len()
            invariant
                i <= self@.len(),
                match seen {
                    Some(k) => k < i && self@[k as int].is_moving() && forall|j: int|
                        0 <= j < i && #[trigger] self@[j].is_moving() ==> j == k,
                    None => forall|j: int| 0 <= j < i ==> !#[trigger] self@[j].is_moving(),
                },
            decreases self@.len() - i,
        {
            if self.pieces[i].is_moving_exec() {
                if seen.is_some() {
                    return false;
                }
                seen = Some(i);
            }
            i += 1;
        }
        true
    }

    /// Advances time by `n` ticks with no new moves. While at most one piece
    /// is in transit, all remaining ticks are done in one pass.
    pub fn step_n(&mut self, n: u32)
        requires
            old(self).wf(),
        ensures
            final(self)@ == ticks(old(self)@, n as nat),
            final(self).wf(),
            final(self).can_long_castle == old(self).can_long_castle,
            final(self).can_short_castle == old(self).can_short_castle,
    {
        let ghost start = self@;
        let mut k: u32 = n;
        while k > 0
            invariant
                k <= n,
                self.wf(),
                start == old(self)@,
                self@ == ticks(start, (n - k) as nat),
                self.can_long_castle == old(self).can_long_castle,
                self.can_short_castle == old(self).can_short_castle,
            decreases k,
        {
            let ghost cur = self@;
            if self.has_one_mover() {
                self.remove_swept(k);
                self.advance_pieces_by_time(k);
                proof {
                    lemma_bulk_is_ticks(cur, k as nat);
                    lemma_ticks_add(start, (n - k) as nat, k as nat);
                    assert(self@ == bulk(cur, k as nat));
                    assert((n - k) as nat + k as nat == n as nat);
                    assert(ticks(cur, k as nat) == ticks(start, n as nat));
                }
                return;
            }
            self.step_without_moves();
            proof {
                assert(ticks(tick(cur), 0) == tick(cur));
                lemma_ticks_add(start, (n - k) as nat, 1);
            }
            k -= 1;
        }
    }

    /// Advances time until the first piece in transit lands. Returns false,
    /// changing nothing, when no piece is in transit.
    pub fn step_until_one_becomes_stationary(&mut self) -> (r: bool)
        requires
            old(self).wf(),
        ensures
            r == exists|i: int| 0 <= i < old(self)@.len() && old(self)@[i].is_moving(),
            !r ==> final(self)@ == old(self)@,
            r ==> final(self)@ == ticks(old(self)@, least_left(old(self)@)),
            final(self).wf(),
            final(self).can_long_castle == old(self).can_long_castle,
            final(self).can_short_castle == old(self).can_short_castle,
    {
        let mut least: Option<u32> = None;
        let mut i: usize = 0;
        while i < self.pieces.len()
            invariant
                i <= self@.len(),
                match least {
                    Some(k) => (exists|j: int|
                        0 <= j < i && self@[j].is_moving() && turns_left_of(self@[j]) == k)
                        && forall|j: int|
                        0 <= j < i && #[trigger] self@[j].is_moving() ==> k <= turns_left_of(
                            self@[j],
                        ),
                    None => forall|j: int| 0 <= j < i ==> !#[trigger] self@[j].is_moving(),
                },
            decreases self@.len() - i,
        {
            if let PieceState::Moving { target, .. } = self.pieces[i].state {
                let better = match least {
                    Some(k) => target.turns_left < k,
                    None => true,
                };
                if better {
                    least = Some(target.turns_left);
                }
            }
            i += 1;
        }
        match least {
            Some(k) => {
                proof {
                    lemma_least_unique(self@, k as nat);
                }
                self.step_n(k);
                true
            },
            None => false,
        }
    }

    /// Advances time until every piece is at rest with no cooldown left.
    pub fn step_until_stationary_with_no_cooldown(&mut self)
        requires
            old(self).wf(),
        ensures
            final(self)@ == ticks(old(self)@, settle_time(old(self)@)),
            settled(final(self)@),
            final(self).wf(),
            final(self).can_long_castle == old(self).can_long_castle,
            final(self).can_short_castle == old(self).can_short_castle,
    {
        let mut most: u32 = 0;
        let mut i: usize = 0;
        while i < self.pieces.len()
            invariant
                i <= self@.len(),
                self.wf(),
                most <= 7,
                most == most_left(self@.take(i as int)),
                forall|j: int| 0 <= j < i ==> turns_left_of(#[trigger] self@[j]) <= most,
            decreases self@.len() - i,
        {
            proof {
                assert(self@.take(i + 1).drop_last() =~= self@.take(i as int));
                assert(self@.take(i + 1).last() == self@[i as int]);
            }
            if let PieceState::Moving { target, .. } = self.pieces[i].state {
                assert(self@[i as int].wf());
                if target.turns_left > most {
                    most = target.turns_left;
                }
            }
            i += 1;
        }
        assert(self@.take(self@.len() as int) =~= self@);
        let n = most + crate::piece::PIECE_COOLDOWN;
        let ghost start = self@;
        self.step_n(n);
        proof {
            assert forall|j: int| 0 <= j < self@.len() implies (#[trigger] self@[j]).is_ready() by {
                lemma_ticks_element(start, n as nat, j);
                let i = choose|i: int|
                    0 <= i < start.len() && ticks(start, n as nat)[j] == advance(start[i], n as nat);
                assert(start[i].wf());
                assert(turns_left_of(start[i]) <= most);
            }
        }
    }

    /// Whether every piece is at rest.
    pub fn is_all_pieces_stationary(&self) -> (r: bool)
        ensures
            r == forall|i: int| 0 <= i < self@.len() ==> !(#[trigger] self@[i]).is_moving(),
    {
        let mut i: usize = 0;
        while i < self.pieces.len()
            invariant
                i <= self@.len(),
                forall|j: int| 0 <= j < i ==> !(#[trigger] self@[j]).is_moving(),
            decreases self@.len() - i,
        {
            if self.pieces[i].is_moving_exec() {
                return false;
            }
            i += 1;
        }
        true
    }

    /// Whether every piece is at rest with no cooldown left.
    pub fn is_all_pieces_stationary_with_no_cooldown(&self) -> (r: bool)
        ensures
            r == settled(self@),
    {
        let mut i: usize = 0;
        while i < self.pieces.len()
            invariant
                i <= self@.len(),
                forall|j: int| 0 <= j < i ==> (#[trigger] self@[j]).is_ready(),
            decreases self@.len() - i,
        {
            match self.pieces[i].state {
                PieceState::Stationary { cooldown, .. } => {
                    if cooldown != 0 {
                        return false;
                    }
                },
                PieceState::Moving { .. } => {
                    return false;
                },
            }
            i += 1;
        }
        true
    }
}

} // verus!
