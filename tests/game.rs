use realtime_chess::{
    forward_y, initial_positions, to_char_map, BoardMove, BoardState, Piece, PieceKind,
    PieceState, Position, Side,
};

const RANDOM_FEN: &str = "3N4/b3P3/5p1B/2Q2bPP/PnK5/r5N1/7k/3r4";

fn pos(x: u32, y: u32) -> Position {
    Position { x, y }
}

fn random_board() -> BoardState {
    BoardState::parse_fen(RANDOM_FEN).unwrap()
}

fn visualize_moves_of_piece(piece_position: Position, moves: Vec<BoardMove>) -> String {
    let targets: Vec<Position> = moves
        .iter()
        .filter_map(|board_move| match board_move {
            BoardMove::Normal {
                piece: Piece { state: PieceState::Stationary { position, .. }, .. },
                target,
            } if *position == piece_position => Some(*target),
            _ => None,
        })
        .collect();
    to_char_map(|position| if targets.iter().any(|&t| t == position) { 'X' } else { '.' })
}

fn num_moves_per_type(moves: &Vec<BoardMove>) -> Vec<(PieceKind, usize)> {
    let all_kinds = vec![
        PieceKind::Pawn,
        PieceKind::Knight,
        PieceKind::Bishop,
        PieceKind::Rook,
        PieceKind::Queen,
        PieceKind::King,
    ];
    all_kinds
        .iter()
        .map(|&kind| {
            let count = moves
                .iter()
                .filter(|m| matches!(m, BoardMove::Normal { piece, .. } if piece.kind == kind))
                .count();
            (kind, count)
        })
        .collect()
}

fn num_normal_moves(moves: &Vec<BoardMove>) -> usize {
    moves.iter().filter(|m| matches!(m, BoardMove::Normal { .. })).count()
}

#[test]
fn test_forward_y() {
    assert_eq!(forward_y(Side::White), -1);
    assert_eq!(forward_y(Side::Black), 1);
}

#[test]
fn test_initial_white_pieces() {
    let pawns: Vec<Position> = (0..8).map(|x| pos(x, 6)).collect();
    assert_eq!(initial_positions(Side::White, PieceKind::Pawn), pawns);
    assert_eq!(initial_positions(Side::White, PieceKind::Knight), vec![pos(1, 7), pos(6, 7)]);
    assert_eq!(initial_positions(Side::White, PieceKind::Bishop), vec![pos(2, 7), pos(5, 7)]);
    assert_eq!(initial_positions(Side::White, PieceKind::Rook), vec![pos(0, 7), pos(7, 7)]);
    assert_eq!(initial_positions(Side::White, PieceKind::Queen), vec![pos(3, 7)]);
    assert_eq!(initial_positions(Side::White, PieceKind::King), vec![pos(4, 7)]);
}

#[test]
fn test_initial_black_pieces() {
    let pawns: Vec<Position> = (0..8).map(|x| pos(x, 1)).collect();
    assert_eq!(initial_positions(Side::Black, PieceKind::Pawn), pawns);
    assert_eq!(initial_positions(Side::Black, PieceKind::Knight), vec![pos(1, 0), pos(6, 0)]);
    assert_eq!(initial_positions(Side::Black, PieceKind::Bishop), vec![pos(2, 0), pos(5, 0)]);
    assert_eq!(initial_positions(Side::Black, PieceKind::Rook), vec![pos(0, 0), pos(7, 0)]);
    assert_eq!(initial_positions(Side::Black, PieceKind::Queen), vec![pos(3, 0)]);
    assert_eq!(initial_positions(Side::Black, PieceKind::King), vec![pos(4, 0)]);
}

#[test]
fn test_initial_board_state() {
    let colors = BoardState::new_initial_state().to_stationary_map_color();
    let piece_types = BoardState::new_initial_state().to_stationary_map_type();
    assert_eq!(
        colors,
        "BBBBBBBB\nBBBBBBBB\n........\n........\n........\n........\nWWWWWWWW\nWWWWWWWW"
    );
    assert_eq!(
        piece_types,
        "RNBQKBNR\nPPPPPPPP\n........\n........\n........\n........\nPPPPPPPP\nRNBQKBNR"
    );
}

#[test]
fn test_initial_possible_moves() {
    let board = BoardState::new_initial_state();
    let moves = board.get_all_possible_moves(Side::White);
    assert_eq!(num_normal_moves(&moves), 20);
    assert_eq!(moves.last(), Some(&BoardMove::Pass(Side::White)));
    assert_eq!(
        num_moves_per_type(&moves),
        vec![
            (PieceKind::Pawn, 16),
            (PieceKind::Knight, 4),
            (PieceKind::Bishop, 0),
            (PieceKind::Rook, 0),
            (PieceKind::Queen, 0),
            (PieceKind::King, 0),
        ]
    );
}

#[test]
fn test_random_state_possible_moves_naive() {
    let moves = random_board().get_all_possible_moves_naive(Side::White);
    assert_eq!(num_normal_moves(&moves), 38);
    assert_eq!(
        num_moves_per_type(&moves),
        vec![
            (PieceKind::Pawn, 4),
            (PieceKind::Knight, 9),
            (PieceKind::Bishop, 2),
            (PieceKind::Rook, 0),
            (PieceKind::Queen, 16),
            (PieceKind::King, 7),
        ]
    );
}

#[test]
fn test_random_state_possible_moves_equivalent_to_naive() {
    let board = random_board();
    let moves = board.get_all_possible_moves(Side::White);
    let naive_moves = board.get_all_possible_moves_naive(Side::White);
    assert_eq!(num_moves_per_type(&moves), num_moves_per_type(&naive_moves));
}

#[test]
fn test_random_state_visualize_queen_move() {
    let board = random_board();
    let queen_position = board
        .pieces()
        .iter()
        .find_map(|piece| match piece.state {
            PieceState::Stationary { position, .. } if piece.kind == PieceKind::Queen => {
                Some(position)
            }
            _ => None,
        })
        .unwrap();
    let moves = board.get_all_possible_moves(Side::White);
    assert_eq!(
        visualize_moves_of_piece(queen_position, moves),
        "..X.....\nX.X.....\n.XXX....\nXX.XXX..\n.X.X....\n....X...\n.....X..\n......X."
    );
}
