//! The initial position, board text in the FEN-like notation, and dumps of
//! the squares as character grids.
use vstd::prelude::*;
use vstd::string::StrSliceExecFns;
use crate::board::{first_stationary_at, occupied, BoardState};
use crate::movegen::square;
use crate::piece::{kind_char, kind_of_char, Piece, PieceKind, PieceState, Side, PIECE_COOLDOWN};
use crate::position::{Position, BOARD_SIZE};
use crate::step::lemma_first_unique;

verus! {

/// Relies on `String::push`: appends one character.
#[verifier::external_body]
fn push_char(s: &mut String, c: char)
    ensures
        final(s)@ == old(s)@.push(c),
{
    s.push(c);
}

/// The piece that starts on `pos` for White, if any: pawns on row 6, the
/// back rank `RNBQKBNR` on row 7.
pub open spec fn white_home(pos: Position) -> Option<PieceKind> {
    if pos.y == 6 && pos.x < 8 {
        Some(PieceKind::Pawn)
    } else if pos.y == 7 {
        if pos.x == 0 || pos.x == 7 {
            Some(PieceKind::Rook)
        } else if pos.x == 1 || pos.x == 6 {
            Some(PieceKind::Knight)
        } else if pos.x == 2 || pos.x == 5 {
            Some(PieceKind::Bishop)
        } else if pos.x == 3 {
            Some(PieceKind::Queen)
        } else if pos.x == 4 {
            Some(PieceKind::King)
        } else {
            None
        }
    } else {
        None
    }
}

/// The piece that starts on `pos` for `side`: Black's set mirrors White's.
pub open spec fn home(side: Side, pos: Position) -> Option<PieceKind> {
    match side {
        Side::White => white_home(pos),
        Side::Black => if pos.y < 8 {
            white_home(Position { x: pos.x, y: (7 - pos.y) as u32 })
        } else {
            None
        },
    }
}

/// The 64 squares in reading order: row by row, left to right.
pub open spec fn squares() -> Seq<Position> {
    Seq::new(64, |i: int| square(i % 8, i / 8))
}

pub open spec fn starts_as(side: Side, kind: PieceKind) -> spec_fn(Position) -> bool {
    |p: Position| home(side, p) == Some(kind)
}

/// Where `side`'s pieces of `kind` start, in reading order.
pub fn initial_positions(side: Side, kind: PieceKind) -> (r: Vec<Position>)
    ensures
        r@ == squares().filter(starts_as(side, kind)),
{
    let ghost pred = starts_as(side, kind);
    let mut r: Vec<Position> = Vec::new();
    let mut i: u32 = 0;
    while i < 64
        invariant
            i <= 64,
            pred == starts_as(side, kind),
            r@ == squares().take(i as int).filter(pred),
        decreases 64 - i,
    {
        let pos = Position::new(i % 8, i / 8);
        let mirrored = match side {
            Side::White => pos,
            Side::Black => Position::new(pos.x, 7 - pos.y),
        };
        let here = if mirrored.y == 6 {
            Some(PieceKind::Pawn)
        } else if mirrored.y == 7 {
            if mirrored.x == 0 || mirrored.x == 7 {
                Some(PieceKind::Rook)
            } else if mirrored.x == 1 || mirrored.x == 6 {
                Some(PieceKind::Knight)
            } else if mirrored.x == 2 || mirrored.x == 5 {
                Some(PieceKind::Bishop)
            } else if mirrored.x == 3 {
                Some(PieceKind::Queen)
            } else {
                Some(PieceKind::King)
            }
        } else {
            None
        };
        proof {
            assert(squares()[i as int] == pos);
            assert(squares().take(i + 1) =~= squares().take(i as int).push(pos));
            squares().take(i as int).lemma_filter_push(pos, pred);
        }
        if here == Some(kind) {
            r.push(pos);
        }
        i += 1;
    }
    assert(squares().take(64) =~= squares());
    r
}

pub open spec fn at_rest(side: Side, kind: PieceKind) -> spec_fn(Position) -> Piece {
    |pos: Position| Piece {
        side,
        kind,
        state: PieceState::Stationary { position: pos, cooldown: 0 },
    }
}

pub open spec fn kinds() -> Seq<PieceKind> {
    seq![
        PieceKind::Pawn,
        PieceKind::Knight,
        PieceKind::Bishop,
        PieceKind::Rook,
        PieceKind::Queen,
        PieceKind::King,
    ]
}

/// `side`'s starting pieces of the first `k` kinds, kind by kind.
pub open spec fn initial_side(side: Side, k: int) -> Seq<Piece>
    decreases k,
{
    if k <= 0 {
        Seq::empty()
    } else {
        initial_side(side, k - 1) + squares().filter(starts_as(side, kinds()[k - 1])).map_values(
            at_rest(side, kinds()[k - 1]),
        )
    }
}

/// The starting position: White's pieces, then Black's, each side kind by
/// kind, all at rest with no cooldown.
pub open spec fn initial_pieces() -> Seq<Piece> {
    initial_side(Side::White, 6) + initial_side(Side::Black, 6)
}

fn kind_at(k: usize) -> (r: PieceKind)
    requires
        k < 6,
    ensures
        r == kinds()[k as int],
{
    match k {
        0 => PieceKind::Pawn,
        1 => PieceKind::Knight,
        2 => PieceKind::Bishop,
        3 => PieceKind::Rook,
        4 => PieceKind::Queen,
        _ => PieceKind::King,
    }
}

fn append_side(pieces: &mut Vec<Piece>, side: Side)
    requires
        crate::board::pieces_wf(old(pieces)@),
    ensures
        final(pieces)@ == old(pieces)@ + initial_side(side, 6),
        crate::board::pieces_wf(final(pieces)@),
{
    let ghost start = pieces@;
    let mut k: usize = 0;
    while k < 6
        invariant
            k <= 6,
            pieces@ == start + initial_side(side, k as int),
            crate::board::pieces_wf(pieces@),
        decreases 6 - k,
    {
        let kind = kind_at(k);
        let positions = initial_positions(side, kind);
        proof {
            assert forall|t: int| 0 <= t < positions@.len() implies (#[trigger] positions@[t]).on_board() by {
                squares().lemma_filter_pred(starts_as(side, kind), t);
                assert(squares().filter(starts_as(side, kind)).contains(positions@[t]));
                squares().lemma_filter_contains_rev(starts_as(side, kind), positions@[t]);
            }
        }
        let ghost before = pieces@;
        let mut j: usize = 0;
        while j < positions.len()
            invariant
                j <= positions@.len(),
                pieces@ == before + positions@.take(j as int).map_values(at_rest(side, kind)),
                crate::board::pieces_wf(pieces@),
                forall|t: int| 0 <= t < positions@.len() ==> (#[trigger] positions@[t]).on_board(),
            decreases positions@.len() - j,
        {
            pieces.push(Piece {
                side,
                kind,
                state: PieceState::Stationary { position: positions[j], cooldown: 0 },
            });
            proof {
                assert(positions@.take(j + 1).map_values(at_rest(side, kind)) =~= positions@.take(
                    j as int,
                ).map_values(at_rest(side, kind)).push(at_rest(side, kind)(positions@[j as int])));
            }
            j += 1;
        }
        assert(positions@.take(positions@.len() as int) =~= positions@);
        assert(pieces@ =~= start + initial_side(side, k + 1));
        k += 1;
    }
}

/// The status of a FEN-like text that could not be read.
#[derive(Debug, Clone, Copy, PartialEq, Eq, Structural)]
pub enum FenError {
    /// A character that is neither a digit, `/`, nor a piece letter.
    UnknownPiece { piece: char, row: usize },
    /// A row whose squares do not add up to the width of the board.
    WrongRowLength { row: usize },
    /// A text with another number of rows than the board has.
    WrongRowCount { rows: usize },
}

/// The side and kind a piece letter stands for: upper case White, lower case Black.
pub open spec fn piece_of_char(c: char) -> Option<(Side, PieceKind)> {
    match kind_of_char(c) {
        Some(k) => Some((Side::White, k)),
        None => if c == 'p' {
            Some((Side::Black, PieceKind::Pawn))
        } else if c == 'n' {
            Some((Side::Black, PieceKind::Knight))
        } else if c == 'b' {
            Some((Side::Black, PieceKind::Bishop))
        } else if c == 'r' {
            Some((Side::Black, PieceKind::Rook))
        } else if c == 'q' {
            Some((Side::Black, PieceKind::Queen))
        } else if c == 'k' {
            Some((Side::Black, PieceKind::King))
        } else {
            None
        },
    }
}

pub open spec fn is_digit(c: char) -> bool {
    '0' <= c && c <= '9'
}

pub open spec fn digit_value(c: char) -> int {
    c as int - '0' as int
}

/// Reads the text from index `i` on, standing in row `row` at column `col`,
/// with `acc` read so far: digits skip squares, letters place pieces, `/`
/// ends a row that must be full.
pub open spec fn fen_from(s: Seq<char>, i: int, row: int, col: int, acc: Seq<Piece>) -> Result<
    Seq<Piece>,
    FenError,
>
    decreases s.len() - i,
{
    if i >= s.len() || i < 0 {
        if col != 8 {
            Err(FenError::WrongRowLength { row: row as usize })
        } else if row != 7 {
            Err(FenError::WrongRowCount { rows: (row + 1) as usize })
        } else {
            Ok(acc)
        }
    } else {
        let c = s[i];
        if c == '/' {
            if col != 8 {
                Err(FenError::WrongRowLength { row: row as usize })
            } else if row >= 7 {
                Err(FenError::WrongRowCount { rows: (row + 2) as usize })
            } else {
                fen_from(s, i + 1, row + 1, 0, acc)
            }
        } else if is_digit(c) {
            if col + digit_value(c) > 8 {
                Err(FenError::WrongRowLength { row: row as usize })
            } else {
                fen_from(s, i + 1, row, col + digit_value(c), acc)
            }
        } else {
            match piece_of_char(c) {
                Some((side, kind)) => if col >= 8 {
                    Err(FenError::WrongRowLength { row: row as usize })
                } else {
                    fen_from(
                        s,
                        i + 1,
                        row,
                        col + 1,
                        acc.push(
                            Piece {
                                side,
                                kind,
                                state: PieceState::Stationary {
                                    position: square(col, row),
                                    cooldown: 0,
                                },
                            },
                        ),
                    )
                },
                None => Err(FenError::UnknownPiece { piece: c, row: row as usize }),
            }
        }
    }
}

/// The pieces a FEN-like text describes, or why it cannot be read.
pub open spec fn fen(s: Seq<char>) -> Result<Seq<Piece>, FenError> {
    fen_from(s, 0, 0, 0, Seq::empty())
}

fn piece_of_char_exec(c: char) -> (r: Option<(Side, PieceKind)>)
    ensures
        r == piece_of_char(c),
{
    match c {
        'P' => Some((Side::White, PieceKind::Pawn)),
        'N' => Some((Side::White, PieceKind::Knight)),
        'B' => Some((Side::White, PieceKind::Bishop)),
        'R' => Some((Side::White, PieceKind::Rook)),
        'Q' => Some((Side::White, PieceKind::Queen)),
        'K' => Some((Side::White, PieceKind::King)),
        'p' => Some((Side::Black, PieceKind::Pawn)),
        'n' => Some((Side::Black, PieceKind::Knight)),
        'b' => Some((Side::Black, PieceKind::Bishop)),
        'r' => Some((Side::Black, PieceKind::Rook)),
        'q' => Some((Side::Black, PieceKind::Queen)),
        'k' => Some((Side::Black, PieceKind::King)),
        _ => None,
    }
}

/// The character shown for a piece: its kind's letter, lower case for Black.
pub open spec fn combo_char(p: Piece) -> char {
    match p.side {
        Side::White => kind_char(p.kind),
        Side::Black => match p.kind {
            PieceKind::Pawn => 'p',
            PieceKind::Knight => 'n',
            PieceKind::Bishop => 'b',
            PieceKind::Rook => 'r',
            PieceKind::Queen => 'q',
            PieceKind::King => 'k',
        },
    }
}

pub open spec fn color_char(p: Piece) -> char {
    match p.side {
        Side::White => 'W',
        Side::Black => 'B',
    }
}

/// A piece's cooldown as one character: `X` for the full cooldown, the
/// digit below it, `?` for a piece in transit.
pub open spec fn cooldown_char(p: Piece) -> char {
    match p.state {
        PieceState::Stationary { cooldown, .. } => if cooldown >= PIECE_COOLDOWN {
            'X'
        } else {
            digit_char(cooldown)
        },
        PieceState::Moving { .. } => '?',
    }
}

pub open spec fn digit_char(d: u32) -> char {
    if d == 0 {
        '0'
    } else if d == 1 {
        '1'
    } else if d == 2 {
        '2'
    } else if d == 3 {
        '3'
    } else if d == 4 {
        '4'
    } else if d == 5 {
        '5'
    } else if d == 6 {
        '6'
    } else if d == 7 {
        '7'
    } else if d == 8 {
        '8'
    } else {
        '9'
    }
}

fn digit_char_exec(d: u32) -> (c: char)
    ensures
        c == digit_char(d),
{
    match d {
        0 => '0',
        1 => '1',
        2 => '2',
        3 => '3',
        4 => '4',
        5 => '5',
        6 => '6',
        7 => '7',
        8 => '8',
        _ => '9',
    }
}

/// The square shown at index `i` of a grid dump, where every row of eight
/// cells is followed by a line break but the last.
pub open spec fn cell_of(i: int) -> Position {
    square(i % 9, i / 9)
}

/// A grid dump: 8 rows of 8 characters separated by line breaks, the
/// character of each square given by `cell`.
pub open spec fn grid(cell: spec_fn(Position) -> char) -> Seq<char> {
    Seq::new(71, |i: int| if i % 9 == 8 { '\n' } else { cell(cell_of(i)) })
}

/// Lays out one character per square, row by row, rows separated by line
/// breaks.
pub fn to_char_map<F: Fn(Position) -> char>(func: F) -> (r: String)
    requires
        forall|p: Position| #[trigger] func.requires((p,)),
    ensures
        r@.len() == 71,
        forall|i: int| 0 <= i < 71 && i % 9 == 8 ==> r@[i] == '\n',
        forall|i: int| 0 <= i < 71 && i % 9 != 8 ==> func.ensures((cell_of(i),), #[trigger] r@[i]),
{
    let mut out = String::new();
    let mut row: u32 = 0;
    while row < 8
        invariant
            row <= 8,
            forall|p: Position| #[trigger] func.requires((p,)),
            out@.len() == if row == 0 { 0 } else { 9 * row - 1 },
            forall|i: int| 0 <= i < out@.len() && i % 9 == 8 ==> out@[i] == '\n',
            forall|i: int|
                0 <= i < out@.len() && i % 9 != 8 ==> func.ensures((cell_of(i),), #[trigger] out@[i]),
        decreases 8 - row,
    {
        if row > 0 {
            push_char(&mut out, '\n');
        }
        let mut col: u32 = 0;
        while col < 8
            invariant
                row < 8,
                col <= 8,
                forall|p: Position| #[trigger] func.requires((p,)),
                out@.len() == 9 * row + col,
                forall|i: int| 0 <= i < out@.len() && i % 9 == 8 ==> out@[i] == '\n',
                forall|i: int|
                    0 <= i < out@.len() && i % 9 != 8 ==> func.ensures(
                        (cell_of(i),),
                        #[trigger] out@[i],
                    ),
            decreases 8 - col,
        {
            let pos = Position::new(col, row);
            let c = func(pos);
            proof {
                let i = 9 * row + col;
                assert(i % 9 == col as int && i / 9 == row as int);
                assert(cell_of(i as int) == pos);
            }
            push_char(&mut out, c);
            col += 1;
        }
        row += 1;
    }
    out
}

/// The character shown on `pos` by a dump: the first piece at rest there,
/// rendered by `f`, or `default_char` when none stands there.
pub open spec fn shown(ps: Seq<Piece>, pos: Position, default_char: char, f: spec_fn(Piece) -> char) -> char {
    if occupied(ps, pos) {
        f(ps[first_at(ps, pos)])
    } else {
        default_char
    }
}

/// The index of the first piece at rest on `pos`, when there is one.
pub open spec fn first_at(ps: Seq<Piece>, pos: Position) -> int {
    choose|i: int| first_stationary_at(ps, pos, i)
}

pub open spec fn combo() -> spec_fn(Piece) -> char {
    |p: Piece| combo_char(p)
}

pub open spec fn kind_only() -> spec_fn(Piece) -> char {
    |p: Piece| kind_char(p.kind)
}

pub open spec fn color_only() -> spec_fn(Piece) -> char {
    |p: Piece| color_char(p)
}

pub open spec fn cooldown_only() -> spec_fn(Piece) -> char {
    |p: Piece| cooldown_char(p)
}

/// The dump of the board whose squares show `shown(ps, _, '.', f)`.
pub open spec fn dump(ps: Seq<Piece>, f: spec_fn(Piece) -> char) -> Seq<char> {
    grid(|pos: Position| shown(ps, pos, '.', f))
}

fn combo_exec(p: &Piece) -> (c: char)
    ensures
        c == combo_char(*p),
{
    let k = p.kind.to_char();
    match p.side {
        Side::White => k,
        Side::Black => match p.kind {
            PieceKind::Pawn => 'p',
            PieceKind::Knight => 'n',
            PieceKind::Bishop => 'b',
            PieceKind::Rook => 'r',
            PieceKind::Queen => 'q',
            PieceKind::King => 'k',
        },
    }
}

fn kind_exec(p: &Piece) -> (c: char)
    ensures
        c == kind_char(p.kind),
{
    p.kind.to_char()
}

fn color_exec(p: &Piece) -> (c: char)
    ensures
        c == color_char(*p),
{
    match p.side {
        Side::White => 'W',
        Side::Black => 'B',
    }
}

fn cooldown_exec(p: &Piece) -> (c: char)
    ensures
        c == cooldown_char(*p),
{
    match p.state {
        PieceState::Stationary { cooldown, .. } => {
            if cooldown >= PIECE_COOLDOWN {
                'X'
            } else {
                digit_char_exec(cooldown)
            }
        },
        PieceState::Moving { .. } => '?',
    }
}

impl BoardState {
    /// The starting position, castling off.
    pub fn new_initial_state() -> (r: Self)
        ensures
            r@ == initial_pieces(),
            r.no_castling(),
            r.wf(),
    {
        let mut pieces: Vec<Piece> = Vec::new();
        append_side(&mut pieces, Side::White);
        append_side(&mut pieces, Side::Black);
        assert(pieces@ =~= initial_pieces());
        Self::new_with_castling(pieces, false)
    }

    /// Reads a board from FEN-like text: rows from the top separated by `/`,
    /// digits for runs of empty squares, `PNBRQK` for White and `pnbrqk`
    /// for Black. Every piece starts at rest with no cooldown. A letter that
    /// names no piece gives `UnknownPiece` with its row; a row whose squares
    /// do not add up to 8 gives `WrongRowLength`, and a text with other than
    /// 8 rows gives `WrongRowCount`, so that every square is on the board.
    pub fn parse_fen(fen_text: &str) -> (r: Result<Self, FenError>)
        ensures
            match (r, fen(fen_text@)) {
                (Ok(b), Ok(ps)) => b@ == ps && b.no_castling() && b.wf(),
                (Err(e), Err(e2)) => e == e2,
                _ => false,
            },
    {
        let n = fen_text.unicode_len();
        let mut pieces: Vec<Piece> = Vec::new();
        let mut row: usize = 0;
        let mut col: usize = 0;
        let mut i: usize = 0;
        while i < n
            invariant
                n == fen_text@.len(),
                i <= n,
                row <= 7,
                col <= 8,
                fen(fen_text@) == fen_from(fen_text@, i as int, row as int, col as int, pieces@),
                crate::board::pieces_wf(pieces@),
            decreases n - i,
        {
            let c = fen_text.get_char(i);
            if c == '/' {
                if col != 8 {
                    return Err(FenError::WrongRowLength { row });
                } else if row >= 7 {
                    return Err(FenError::WrongRowCount { rows: row + 2 });
                }
                row += 1;
                col = 0;
            } else if '0' <= c && c <= '9' {
                let d = (c as u32 - '0' as u32) as usize;
                if col + d > 8 {
                    return Err(FenError::WrongRowLength { row });
                }
                col += d;
            } else {
                match piece_of_char_exec(c) {
                    Some((side, kind)) => {
                        if col >= 8 {
                            return Err(FenError::WrongRowLength { row });
                        }
                        pieces.push(Piece {
                            side,
                            kind,
                            state: PieceState::Stationary {
                                position: Position::new(col as u32, row as u32),
                                cooldown: 0,
                            },
                        });
                        col += 1;
                    },
                    None => {
                        return Err(FenError::UnknownPiece { piece: c, row });
                    },
                }
            }
            i += 1;
        }
        if col != 8 {
            return Err(FenError::WrongRowLength { row });
        } else if row != 7 {
            return Err(FenError::WrongRowCount { rows: row + 1 });
        }
        Ok(Self::new_with_castling(pieces, false))
    }

    /// The character that `shown` gives for `pos`.
    fn shown_at<F: Fn(&Piece) -> char>(&self, pos: Position, default_char: char, f: &F) -> (r: char)
        requires
            forall|p: &Piece| #[trigger] f.requires((p,)),
        ensures
            occupied(self@, pos) ==> f.ensures((&self@[first_at(self@, pos)],), r),
            !occupied(self@, pos) ==> r == default_char,
    {
        match self.stationary_index(pos) {
            Some(i) => {
                proof {
                    assert(first_stationary_at(self@, pos, i as int));
                    lemma_first_unique(self@, pos, i as int, first_at(self@, pos));
                }
                f(&self.pieces[i])
            },
            None => default_char,
        }
    }

    /// A dump of the pieces at rest: each square shows the first piece at
    /// rest on it, rendered by `f`, or `default_char`. Pieces in transit are
    /// not shown.
    pub fn to_stationary_map<F: Fn(&Piece) -> char>(&self, default_char: char, f: F) -> (r: String)
        requires
            forall|p: &Piece| #[trigger] f.requires((p,)),
        ensures
            r@.len() == 71,
            forall|i: int| 0 <= i < 71 && i % 9 == 8 ==> r@[i] == '\n',
            forall|i: int|
                0 <= i < 71 && i % 9 != 8 && !occupied(self@, cell_of(i)) ==> #[trigger] r@[i]
                    == default_char,
            forall|i: int|
                0 <= i < 71 && i % 9 != 8 && occupied(self@, cell_of(i)) ==> f.ensures(
                    (&self@[first_at(self@, cell_of(i))],),
                    #[trigger] r@[i],
                ),
    {
        let mut out = String::new();
        let mut row: u32 = 0;
        while row < 8
            invariant
                row <= 8,
                forall|p: &Piece| #[trigger] f.requires((p,)),
                out@.len() == if row == 0 { 0 } else { 9 * row - 1 },
                forall|i: int| 0 <= i < out@.len() && i % 9 == 8 ==> out@[i] == '\n',
                forall|i: int|
                    0 <= i < out@.len() && i % 9 != 8 && !occupied(self@, cell_of(i))
                        ==> #[trigger] out@[i] == default_char,
                forall|i: int|
                    0 <= i < out@.len() && i % 9 != 8 && occupied(self@, cell_of(i)) ==> f.ensures(
                        (&self@[first_at(self@, cell_of(i))],),
                        #[trigger] out@[i],
                    ),
            decreases 8 - row,
        {
            if row > 0 {
                push_char(&mut out, '\n');
            }
            let mut col: u32 = 0;
            while col < 8
                invariant
                    row < 8,
                    col <= 8,
                    forall|p: &Piece| #[trigger] f.requires((p,)),
                    out@.len() == 9 * row + col,
                    forall|i: int| 0 <= i < out@.len() && i % 9 == 8 ==> out@[i] == '\n',
                    forall|i: int|
                        0 <= i < out@.len() && i % 9 != 8 && !occupied(self@, cell_of(i))
                            ==> #[trigger] out@[i] == default_char,
                    forall|i: int|
                        0 <= i < out@.len() && i % 9 != 8 && occupied(self@, cell_of(i)) ==> f.ensures(
                            (&self@[first_at(self@, cell_of(i))],),
                            #[trigger] out@[i],
                        ),
                decreases 8 - col,
            {
                let pos = Position::new(col, row);
                let c = self.shown_at(pos, default_char, &f);
                proof {
                    let i = 9 * row + col;
                    assert(i % 9 == col as int && i / 9 == row as int);
                    assert(cell_of(i as int) == pos);
                }
                push_char(&mut out, c);
                col += 1;
            }
            row += 1;
        }
        out
    }

    /// The dump with each piece at rest shown by its letter, lower case for Black.
    pub fn to_stationary_map_combo(&self) -> (r: String)
        ensures
            r@ == dump(self@, combo()),
    {
        let r = self.to_stationary_map('.', |p: &Piece| -> (c: char)
            ensures
                c == combo_char(*p),
            { combo_exec(p) });
        proof {
            self.lemma_dump(r@, combo());
        }
        r
    }

    /// The dump with each piece at rest shown by its kind's letter.
    pub fn to_stationary_map_type(&self) -> (r: String)
        ensures
            r@ == dump(self@, kind_only()),
    {
        let r = self.to_stationary_map('.', |p: &Piece| -> (c: char)
            ensures
                c == kind_char(p.kind),
            { kind_exec(p) });
        proof {
            self.lemma_dump(r@, kind_only());
        }
        r
    }

    /// The dump with each piece at rest shown as `W` or `B`.
    pub fn to_stationary_map_color(&self) -> (r: String)
        ensures
            r@ == dump(self@, color_only()),
    {
        let r = self.to_stationary_map('.', |p: &Piece| -> (c: char)
            ensures
                c == color_char(*p),
            { color_exec(p) });
        proof {
            self.lemma_dump(r@, color_only());
        }
        r
    }

    /// The dump with each piece at rest shown by its cooldown.
    pub fn to_stationary_map_cooldowns(&self) -> (r: String)
        ensures
            r@ == dump(self@, cooldown_only()),
    {
        let r = self.to_stationary_map('.', |p: &Piece| -> (c: char)
            ensures
                c == cooldown_char(*p),
            { cooldown_exec(p) });
        proof {
            self.lemma_dump(r@, cooldown_only());
        }
        r
    }

    proof fn lemma_dump(&self, r: Seq<char>, f: spec_fn(Piece) -> char)
        requires
            r.len() == 71,
            forall|i: int| 0 <= i < 71 && i % 9 == 8 ==> r[i] == '\n',
            forall|i: int|
                0 <= i < 71 && i % 9 != 8 && !occupied(self@, cell_of(i)) ==> #[trigger] r[i] == '.',
            forall|i: int|
                0 <= i < 71 && i % 9 != 8 && occupied(self@, cell_of(i)) ==> #[trigger] r[i] == f(
                    self@[first_at(self@, cell_of(i))],
                ),
        ensures
            r == dump(self@, f),
    {
        assert(r =~= dump(self@, f));
    }
}

} // verus!
