//! A counter per side and kind of piece.
use vstd::prelude::*;
use crate::piece::{PieceKind, Side};

verus! {

/// The index of a (side, kind) pair among the twelve.
pub open spec fn slot(side: Side, kind: PieceKind) -> int {
    (match side {
        Side::White => 0int,
        Side::Black => 6int,
    }) + match kind {
        PieceKind::Pawn => 0int,
        PieceKind::Knight => 1int,
        PieceKind::Bishop => 2int,
        PieceKind::Rook => 3int,
        PieceKind::Queen => 4int,
        PieceKind::King => 5int,
    }
}

/// One counter per side and kind.
pub struct PieceCounter {
    counts: [usize; 12],
}

impl View for PieceCounter {
    type V = Seq<usize>;

    closed spec fn view(&self) -> Seq<usize> {
        self.counts@
    }
}

impl PieceCounter {
    /// All counters at zero.
    pub fn new() -> (r: Self)
        ensures
            r@ == Seq::new(12, |i: int| 0usize),
    {
        let r = PieceCounter { counts: [0usize; 12] };
        assert(r@ =~= Seq::new(12, |i: int| 0usize));
        r
    }

    /// The counter of `side`'s pieces of `kind`, to read or change.
    pub fn get_mut(&mut self, side: Side, kind: PieceKind) -> (r: &mut usize)
        ensures
            *r == old(self)@[slot(side, kind)],
            final(self)@ == old(self)@.update(slot(side, kind), *final(r)),
    {
        let s: usize = match side {
            Side::White => 0,
            Side::Black => 6,
        };
        let k: usize = match kind {
            PieceKind::Pawn => 0,
            PieceKind::Knight => 1,
            PieceKind::Bishop => 2,
            PieceKind::Rook => 3,
            PieceKind::Queen => 4,
            PieceKind::King => 5,
        };
        &mut self.counts[s + k]
    }
}

} // verus!
