use realtime_chess::{BoardMove, BoardState, Piece, PieceKind, PieceState, Position, Side};

const RANDOM_FEN: &str = "3N4/b3P3/5p1B/2Q2bPP/PnK5/r5N1/7k/3r4";

fn snapshots_n<F>(board: &mut BoardState, n: u32, f: F) -> Vec<String>
where
    F: Fn(&BoardState) -> String,
{
    let mut all_steps = Vec::new();
    for _ in 0..n {
        all_steps.push(f(board));
        board.step_without_moves();
    }
    all_steps.push(f(board));
    all_steps
}

fn snapshots_until_stationary(board: &mut BoardState) -> Vec<String> {
    let mut all_steps = Vec::new();
    while !board.is_all_pieces_stationary() {
        all_steps.push(board.to_stationary_map_combo());
        board.step_without_moves();
    }
    all_steps.push(board.to_stationary_map_combo());
    all_steps
}

fn find_move<P>(board: &BoardState, side: Side, predicate: P) -> Option<BoardMove>
where
    P: FnMut(&BoardMove) -> bool,
{
    board.get_all_possible_moves(side).into_iter().find(predicate)
}

fn find_move_by_kind(board: &BoardState, side: Side, kind: PieceKind) -> Option<BoardMove> {
    find_move(board, side, |p| matches!(p, BoardMove::Normal { piece, .. } if piece.kind == kind))
}

fn at_rest(side: Side, kind: PieceKind, x: u32, y: u32) -> Piece {
    Piece { side, kind, state: PieceState::Stationary { position: Position { x, y }, cooldown: 0 } }
}

#[test]
fn test_step_no_move() {
    let mut board = BoardState::parse_fen(RANDOM_FEN).unwrap();
    let before_map = board.to_stationary_map_combo();
    board.step_without_moves();
    let after_map = board.to_stationary_map_combo();
    assert_eq!(before_map, after_map);
}

#[test]
fn test_step_rand_move() {
    let mut board = BoardState::parse_fen(RANDOM_FEN).unwrap();
    let board_move = find_move_by_kind(&board, Side::White, PieceKind::Knight).unwrap();
    board.apply_move(&board_move);
    let snapshots = snapshots_until_stationary(&mut board);
    assert_eq!(
        board_move,
        BoardMove::Normal {
            piece: at_rest(Side::White, PieceKind::Knight, 3, 0),
            target: Position { x: 1, y: 1 },
        }
    );
    assert_eq!(
        snapshots,
        vec![
            "........\nb...P...\n.....p.B\n..Q..bPP\nPnK.....\nr.....N.\n.......k\n...r....",
            "........\nb...P...\n.....p.B\n..Q..bPP\nPnK.....\nr.....N.\n.......k\n...r....",
            "........\nbN..P...\n.....p.B\n..Q..bPP\nPnK.....\nr.....N.\n.......k\n...r....",
        ]
    );
}

#[test]
fn test_step_capture_stationary() {
    let mut board = BoardState::parse_fen(RANDOM_FEN).unwrap();
    let queen = *board
        .pieces()
        .iter()
        .find(|piece| piece.side == Side::White && piece.kind == PieceKind::Queen)
        .unwrap();
    let board_move = BoardMove::Normal { piece: queen, target: Position { x: 5, y: 3 } };
    board.apply_move(&board_move);
    let snapshots = snapshots_until_stationary(&mut board);
    assert_eq!(
        board_move,
        BoardMove::Normal {
            piece: at_rest(Side::White, PieceKind::Queen, 2, 3),
            target: Position { x: 5, y: 3 },
        }
    );
    assert_eq!(
        snapshots,
        vec![
            "...N....\nb...P...\n.....p.B\n.....bPP\nPnK.....\nr.....N.\n.......k\n...r....",
            "...N....\nb...P...\n.....p.B\n.....bPP\nPnK.....\nr.....N.\n.......k\n...r....",
            "...N....\nb...P...\n.....p.B\n.....bPP\nPnK.....\nr.....N.\n.......k\n...r....",
            "...N....\nb...P...\n.....p.B\n.....QPP\nPnK.....\nr.....N.\n.......k\n...r....",
        ]
    );
}

#[test]
fn test_step_capture_moving() {
    let mut board = BoardState::parse_fen("8/8/8/8/8/8/8/R6r").unwrap();
    let white_target = Position { x: 7, y: 7 };
    let black_target = Position { x: 0, y: 7 };
    let white_moves = board.get_all_possible_moves(Side::White);
    let white_move = white_moves
        .iter()
        .find(|m| matches!(m, BoardMove::Normal { target, .. } if target == &white_target))
        .unwrap();
    let black_moves = board.get_all_possible_moves(Side::Black);
    let black_move = black_moves
        .iter()
        .find(|m| matches!(m, BoardMove::Normal { target, .. } if target == &black_target))
        .unwrap();
    board.step(white_move, &BoardMove::Pass(Side::Black));
    board.step(&BoardMove::Pass(Side::White), black_move);
    board.step_n(15);
    assert_eq!(
        board.to_stationary_map_combo(),
        "........\n........\n........\n........\n........\n........\n........\n.......R"
    );
}

#[test]
fn test_cooldown() {
    let mut board = BoardState::parse_fen("8/8/8/8/4P3/8/8/8").unwrap();
    let board_move = find_move_by_kind(&board, Side::White, PieceKind::Pawn).unwrap();
    board.apply_move(&board_move);
    let snapshots = snapshots_n(&mut board, 15, |x| x.to_stationary_map_cooldowns());
    let row = |c: char| format!("........\n........\n........\n....{}...\n........\n........\n........\n........", c);
    let mut expected = vec!["........\n........\n........\n........\n........\n........\n........\n........".to_string()];
    expected.push(row('X'));
    for c in ['9', '8', '7', '6', '5', '4', '3', '2', '1', '0', '0', '0', '0', '0'] {
        expected.push(row(c));
    }
    assert_eq!(snapshots, expected);
}

#[test]
fn test_no_move_while_cooldown() {
    let mut board = BoardState::parse_fen("8/8/8/8/4P3/8/8/8").unwrap();
    let board_move = find_move_by_kind(&board, Side::White, PieceKind::Pawn).unwrap();
    board.apply_move(&board_move);
    board.step_n(5);
    let possible_moves = board.get_all_possible_moves(Side::White);
    assert_eq!(possible_moves, vec![BoardMove::Pass(Side::White)]);
}

#[test]
fn test_has_move_after_cooldown() {
    let mut board = BoardState::parse_fen("8/8/8/8/4P3/8/8/8").unwrap();
    let board_move = find_move_by_kind(&board, Side::White, PieceKind::Pawn).unwrap();
    board.apply_move(&board_move);
    board.step_n(15);
    let possible_move = find_move_by_kind(&board, Side::White, PieceKind::Pawn).unwrap();
    assert_eq!(
        possible_move,
        BoardMove::Normal {
            piece: at_rest(Side::White, PieceKind::Pawn, 4, 3),
            target: Position { x: 4, y: 2 },
        }
    );
}

#[test]
fn test_pawn_promotion() {
    let mut board = BoardState::parse_fen("8/P7/8/8/8/8/8/8").unwrap();
    let white_move = find_move_by_kind(&board, Side::White, PieceKind::Pawn).unwrap();
    assert_eq!(
        white_move,
        BoardMove::Normal {
            piece: at_rest(Side::White, PieceKind::Pawn, 0, 1),
            target: Position { x: 0, y: 0 },
        }
    );
    board.step(&white_move, &BoardMove::Pass(Side::Black));
    assert_eq!(
        board.to_stationary_map_combo(),
        "Q.......\n........\n........\n........\n........\n........\n........\n........"
    );
}

#[test]
fn test_step_until_stationary() {
    let mut board = BoardState::parse_fen("8/8/8/P7/8/8/8/8").unwrap();
    let board_move = find_move_by_kind(&board, Side::White, PieceKind::Pawn).unwrap();
    board.apply_move(&board_move);
    board.step_until_stationary_with_no_cooldown();
    assert_eq!(
        board.to_stationary_map_combo(),
        "........\n........\nP.......\n........\n........\n........\n........\n........"
    );
    assert_eq!(
        board.to_stationary_map_cooldowns(),
        "........\n........\n0.......\n........\n........\n........\n........\n........"
    );
}
