use realtime_chess::{
    evaluate_material_heuristic, search_white, BoardMove, BoardState, Delta, EndState, FenError,
    MoveTarget, Piece, PieceCounter, PieceKind, PieceState, Position, Side,
};

fn at(side: Side, kind: PieceKind, x: u32, y: u32, cooldown: u32) -> Piece {
    Piece { side, kind, state: PieceState::Stationary { position: Position { x, y }, cooldown } }
}

fn normal_moves(board: &BoardState, side: Side) -> usize {
    board
        .get_all_possible_moves(side)
        .iter()
        .filter(|m| matches!(m, BoardMove::Normal { .. }))
        .count()
}

fn first_move_to(board: &BoardState, side: Side, x: u32, y: u32) -> BoardMove {
    board
        .get_all_possible_moves(side)
        .into_iter()
        .find(|m| matches!(m, BoardMove::Normal { target, .. } if *target == Position { x, y }))
        .unwrap()
}

fn value(kind: PieceKind) -> i32 {
    match kind {
        PieceKind::Pawn => 1,
        PieceKind::Knight => 3,
        PieceKind::Bishop => 3,
        PieceKind::Rook => 5,
        PieceKind::Queen => 9,
        PieceKind::King => 100,
    }
}

// An exhaustive minimax over the same candidates and transitions, without pruning.
fn terminal(b: &BoardState, depth: i32) -> bool {
    b.get_board_end_state().is_some()
        || (b.is_all_pieces_stationary_with_no_cooldown() && depth <= 0)
        || depth <= -2
}

fn moves_at(b: &BoardState, side: Side, depth: i32) -> Vec<BoardMove> {
    if depth <= 0 {
        b.get_sorted_quiescent_moves(side, value)
    } else {
        b.get_all_possible_moves(side)
    }
}

fn successor(b: &BoardState, depth: i32, w: &BoardMove, m: &BoardMove) -> BoardState {
    let mut next = b.clone();
    if depth <= 0 {
        next.apply_move(w);
        next.apply_move(m);
        if !next.step_until_one_becomes_stationary() {
            next.step_until_stationary_with_no_cooldown();
        }
    } else {
        next.step(w, m);
    }
    next
}

fn white_value(b: &BoardState, depth: i32) -> i64 {
    if terminal(b, depth) {
        return evaluate_material_heuristic(b);
    }
    moves_at(b, Side::White, depth).iter().map(|w| black_value(b, depth, w)).max().unwrap()
}

fn black_value(b: &BoardState, depth: i32, w: &BoardMove) -> i64 {
    if terminal(b, depth) {
        return evaluate_material_heuristic(b);
    }
    moves_at(b, Side::Black, depth)
        .iter()
        .map(|m| white_value(&successor(b, depth, w, m), depth - 1))
        .min()
        .unwrap()
}

#[test]
fn step_is_deterministic() {
    let board = BoardState::parse_fen("3N4/b3P3/5p1B/2Q2bPP/PnK5/r5N1/7k/3r4").unwrap();
    let white = first_move_to(&board, Side::White, 5, 3);
    let black = first_move_to(&board, Side::Black, 7, 1);
    let mut a = board.clone();
    let mut b = board.clone();
    for _ in 0..4 {
        a.step(&white, &black);
        b.step(&white, &black);
    }
    assert_eq!(a.pieces(), b.pieces());
}

#[test]
fn equal_priority_pieces_annihilate() {
    let mut board = BoardState::parse_fen("8/8/8/8/8/8/8/R6r").unwrap();
    let white = first_move_to(&board, Side::White, 7, 7);
    let black = first_move_to(&board, Side::Black, 0, 7);
    board.step(&white, &black);
    board.step_n(10);
    assert_eq!(board.pieces().len(), 0);
}

#[test]
fn knight_does_not_capture_in_passing() {
    let mut board = BoardState::parse_fen("3N4/2p5/8/8/8/8/8/8").unwrap();
    let knight_move = first_move_to(&board, Side::White, 1, 1);
    board.step(&knight_move, &BoardMove::Pass(Side::Black));
    board.step_without_moves();
    assert_eq!(
        board.to_stationary_map_combo(),
        "........\n.Np.....\n........\n........\n........\n........\n........\n........"
    );
}

#[test]
fn knight_captures_on_landing() {
    let mut board = BoardState::parse_fen("3N4/1p6/8/8/8/8/8/8").unwrap();
    let knight_move = first_move_to(&board, Side::White, 1, 1);
    board.step(&knight_move, &BoardMove::Pass(Side::Black));
    board.step_without_moves();
    assert_eq!(
        board.to_stationary_map_combo(),
        "........\n.N......\n........\n........\n........\n........\n........\n........"
    );
}

#[test]
fn pawn_stays_pawn_in_transit() {
    let mut board = BoardState::parse_fen("8/8/8/8/8/8/P7/8").unwrap();
    let double = first_move_to(&board, Side::White, 0, 4);
    board.step(&double, &BoardMove::Pass(Side::Black));
    assert_eq!(board.pieces()[0].kind, PieceKind::Pawn);
    assert!(matches!(board.pieces()[0].state, PieceState::Moving { .. }));
    board.step_without_moves();
    assert_eq!(board.pieces()[0].kind, PieceKind::Pawn);
}

#[test]
fn bulk_steps_match_single_ticks() {
    let fen = "3N4/b3P3/5p1B/2Q2bPP/PnK5/r5N1/7k/3r4";
    for (x, y) in [(5u32, 3u32), (1, 1), (2, 0)] {
        let board = BoardState::parse_fen(fen).unwrap();
        let Some(m) = board
            .get_all_possible_moves(Side::White)
            .into_iter()
            .find(|m| matches!(m, BoardMove::Normal { target, .. } if *target == Position { x, y }))
        else {
            continue;
        };
        for n in 1..14u32 {
            let mut bulk = board.clone();
            bulk.apply_move(&m);
            let mut single = bulk.clone();
            bulk.step_n(n);
            for _ in 0..n {
                single.step_without_moves();
            }
            assert_eq!(bulk.pieces(), single.pieces());
        }
    }
}

#[test]
fn no_moves_while_cooling_down() {
    let mut board = BoardState::parse_fen("8/8/8/8/4P3/8/8/8").unwrap();
    let m = first_move_to(&board, Side::White, 4, 3);
    board.apply_move(&m);
    let mut counts = Vec::new();
    for _ in 0..12 {
        board.step_without_moves();
        counts.push(normal_moves(&board, Side::White));
    }
    assert_eq!(counts, vec![0, 0, 0, 0, 0, 0, 0, 0, 0, 0, 1, 1]);
}

#[test]
fn search_matches_exhaustive_minimax() {
    for (fen, depth) in [
        ("k7/8/8/8/8/8/8/R6K", 1u32),
        ("4k3/8/8/3q4/8/8/3R4/4K3", 1),
        ("k7/p7/8/8/8/8/1P6/K7", 2),
        ("7k/8/8/8/3n4/8/2P5/K7", 1),
    ] {
        let board = BoardState::parse_fen(fen).unwrap();
        let out = search_white(&board, depth);
        assert_eq!(out.score, white_value(&board, depth as i32), "{}", fen);
    }
}

#[test]
fn quiescent_captures_come_cheapest_first() {
    let board = BoardState::from_pieces(vec![
        at(Side::White, PieceKind::Queen, 0, 7, 0),
        at(Side::White, PieceKind::Pawn, 4, 4, 0),
        at(Side::Black, PieceKind::Knight, 3, 3, 10),
        at(Side::Black, PieceKind::Rook, 0, 5, 10),
    ]);
    let moves = board.get_sorted_quiescent_moves(Side::White, value);
    assert_eq!(
        moves,
        vec![
            BoardMove::Normal {
                piece: at(Side::White, PieceKind::Pawn, 4, 4, 0),
                target: Position { x: 3, y: 3 },
            },
            BoardMove::Normal {
                piece: at(Side::White, PieceKind::Queen, 0, 7, 0),
                target: Position { x: 0, y: 5 },
            },
            BoardMove::Pass(Side::White),
        ]
    );
}

#[test]
fn fen_errors_name_the_problem() {
    assert_eq!(
        BoardState::parse_fen("8/8/8/8/8/8/8/7x").err(),
        Some(FenError::UnknownPiece { piece: 'x', row: 7 })
    );
    assert_eq!(
        BoardState::parse_fen("8/8/8/7/8/8/8/8").err(),
        Some(FenError::WrongRowLength { row: 3 })
    );
    assert_eq!(
        BoardState::parse_fen("8/8/8/9/8/8/8/8").err(),
        Some(FenError::WrongRowLength { row: 3 })
    );
    assert_eq!(BoardState::parse_fen("8/8").err(), Some(FenError::WrongRowCount { rows: 2 }));
    assert_eq!(
        BoardState::parse_fen("8/8/8/8/8/8/8/8/8").err(),
        Some(FenError::WrongRowCount { rows: 9 })
    );
}

#[test]
fn empty_board_has_only_the_pass() {
    let board = BoardState::parse_fen("8/8/8/8/8/8/8/8").unwrap();
    assert_eq!(board.get_all_possible_moves(Side::Black), vec![BoardMove::Pass(Side::Black)]);
    assert_eq!(board.get_board_end_state(), Some(EndState::Draw));
}

#[test]
fn end_states() {
    let kings = |fen: &str| BoardState::parse_fen(fen).unwrap().get_board_end_state();
    assert_eq!(kings("K7/8/8/8/8/8/8/8"), Some(EndState::Winner(Side::White)));
    assert_eq!(kings("k7/8/8/8/8/8/8/8"), Some(EndState::Winner(Side::Black)));
    assert_eq!(kings("K7/8/8/8/8/8/8/7k"), Some(EndState::Draw));
    assert_eq!(kings("Kk6/8/8/8/8/8/8/8"), Some(EndState::Draw));
    assert_eq!(kings("KQ6/8/8/8/8/8/8/7k"), None);
    let adjacent = BoardState::from_pieces(vec![
        at(Side::White, PieceKind::King, 0, 0, 0),
        at(Side::Black, PieceKind::King, 1, 1, 3),
    ]);
    assert_eq!(adjacent.get_board_end_state(), Some(EndState::Winner(Side::White)));
}

#[test]
fn material_scores() {
    assert_eq!(evaluate_material_heuristic(&BoardState::new_initial_state()), 0);
    let board = BoardState::parse_fen("KQ6/8/8/8/8/8/8/7k").unwrap();
    assert_eq!(evaluate_material_heuristic(&board), 9);
    let board = BoardState::parse_fen("K7/8/8/8/8/8/8/8").unwrap();
    assert_eq!(evaluate_material_heuristic(&board), 100);
    let board = BoardState::parse_fen("k7/8/8/8/8/8/8/8").unwrap();
    assert_eq!(evaluate_material_heuristic(&board), -100);
    let board = BoardState::parse_fen("k6r/8/8/8/8/8/8/KPPN4").unwrap();
    assert_eq!(evaluate_material_heuristic(&board), 0);
}

#[test]
fn random_boards_are_well_placed() {
    for n in [1usize, 5, 16] {
        let board = BoardState::generate_random_board_with(n);
        let pieces = board.pieces();
        assert_eq!(pieces.len(), 2 * n);
        let mut squares = Vec::new();
        for piece in pieces {
            match piece.state {
                PieceState::Stationary { position, cooldown } => {
                    assert_eq!(cooldown, 0);
                    assert!(position.x < 8 && position.y < 8);
                    if piece.kind == PieceKind::Pawn {
                        assert!(position.y >= 1 && position.y <= 6);
                    }
                    assert!(!squares.contains(&position));
                    squares.push(position);
                }
                PieceState::Moving { .. } => panic!("a random piece is in transit"),
            }
        }
        for side in [Side::White, Side::Black] {
            assert_eq!(pieces.iter().filter(|p| p.side == side).count(), n);
            assert_eq!(
                pieces.iter().filter(|p| p.side == side && p.kind == PieceKind::King).count(),
                1
            );
        }
    }
}

#[test]
fn settle_lands_and_cools_everything() {
    let mut board = BoardState::parse_fen("8/8/8/8/8/8/8/R6r").unwrap();
    let white = first_move_to(&board, Side::White, 3, 7);
    board.step(&white, &BoardMove::Pass(Side::Black));
    assert!(!board.is_all_pieces_stationary());
    board.step_until_stationary_with_no_cooldown();
    assert!(board.is_all_pieces_stationary_with_no_cooldown());
    assert_eq!(
        board.to_stationary_map_combo(),
        "........\n........\n........\n........\n........\n........\n........\n...R...r"
    );
}

#[test]
fn one_lands_first() {
    let mut board = BoardState::parse_fen("8/8/8/8/8/8/8/R6r").unwrap();
    assert!(!board.step_until_one_becomes_stationary());
    let white = first_move_to(&board, Side::White, 3, 7);
    let black = first_move_to(&board, Side::Black, 6, 7);
    board.step(&white, &black);
    assert!(board.step_until_one_becomes_stationary());
    assert_eq!(
        board.to_stationary_map_combo(),
        "........\n........\n........\n........\n........\n........\n........\n...R..r."
    );
}

#[test]
fn small_types() {
    assert_eq!(Delta { x: 5, y: -3 }.clamp(-1, 1), Delta { x: 1, y: -1 });
    assert_eq!(Delta { x: 0, y: -3 }.clamp(-1, 1), Delta { x: 0, y: -1 });
    assert_eq!(Delta { x: 2, y: -6 }.dist_linf(), 6);
    assert_eq!(Delta { x: -4, y: 1 }.dist_linf(), 4);
    assert_eq!(PieceKind::from_char('Q'), Some(PieceKind::Queen));
    assert_eq!(PieceKind::from_char('q'), None);
    let t = MoveTarget::new(Position { x: 1, y: 2 }, 3, MoveTarget::MIN_PRIORITY);
    assert_eq!((t.target, t.turns_left, t.priority), (Position { x: 1, y: 2 }, 3, 0));
    let mut counter = PieceCounter::new();
    *counter.get_mut(Side::Black, PieceKind::Rook) += 2;
    *counter.get_mut(Side::Black, PieceKind::Rook) += 1;
    assert_eq!(*counter.get_mut(Side::Black, PieceKind::Rook), 3);
    assert_eq!(*counter.get_mut(Side::White, PieceKind::Rook), 0);
}

#[test]
fn principal_variation_replays() {
    let board = BoardState::parse_fen("k7/p7/8/8/8/8/1P6/K7").unwrap();
    let out = search_white(&board, 2);
    let states = out.states();
    assert_eq!(states[0].pieces(), board.pieces());
    assert!(states.len() >= 2);
    let first = out.get_first_move_of_side(Side::White);
    assert_eq!(first, out.moves[0]);
    assert_eq!(out.scores.len(), out.moves.len());
    assert!(out.scores.iter().all(|&s| s == out.score));
}

#[test]
fn overlapping_pieces_are_detected() {
    assert!(!BoardState::new_initial_state().has_overlapping_pieces());
    let board = BoardState::from_pieces(vec![
        at(Side::White, PieceKind::Rook, 2, 2, 0),
        at(Side::Black, PieceKind::Knight, 5, 5, 0),
        at(Side::Black, PieceKind::Pawn, 2, 2, 4),
    ]);
    assert!(board.has_overlapping_pieces());
}

#[test]
fn random_move_is_a_possible_move() {
    let board = BoardState::new_initial_state();
    let moves = board.get_all_possible_moves(Side::Black);
    for _ in 0..20 {
        let m = realtime_chess::random::random_move(&board, Side::Black);
        assert!(moves.contains(&m));
    }
}

#[test]
fn chosen_move_belongs_to_the_side() {
    let board = BoardState::parse_fen("k7/p7/8/8/8/8/1P6/K7").unwrap();
    let m = realtime_chess::search::move_from_minimax_with_heuristic(&board, Side::White);
    assert_eq!(m.side(), Side::White);
    assert!(board.get_all_possible_moves(Side::White).contains(&m));
}

#[test]
fn forty_eight_pawns_all_placed() {
    let mut pieces = Vec::new();
    for k in 0..48 {
        let side = if k % 2 == 0 { Side::White } else { Side::Black };
        pieces.push((side, PieceKind::Pawn));
    }
    let board = BoardState::generate_random_board(pieces);
    assert_eq!(board.pieces().len(), 48);
    assert!(!board.has_overlapping_pieces());
}

#[test]
fn principal_variation_alternates() {
    let board = BoardState::parse_fen("4k3/8/8/3q4/8/8/3R4/4K3").unwrap();
    let out = search_white(&board, 2);
    assert!(out.moves.len() >= 2);
    for (k, m) in out.moves.iter().enumerate() {
        let side = if k % 2 == 0 { Side::White } else { Side::Black };
        assert_eq!(m.side(), side);
    }
    assert!(board.get_all_possible_moves(Side::White).contains(&out.moves[0]));
    assert!(board.get_all_possible_moves(Side::Black).contains(&out.moves[1]));
}

#[test]
fn chosen_black_move_is_possible() {
    let board = BoardState::parse_fen("4k3/8/8/3q4/8/8/3R4/4K3").unwrap();
    let m = realtime_chess::search::move_from_minimax_with_heuristic(&board, Side::Black);
    assert_eq!(m.side(), Side::Black);
    assert!(board.get_all_possible_moves(Side::Black).contains(&m));
}

#[test]
fn states_follow_the_variation() {
    let board = BoardState::parse_fen("4k3/8/8/3q4/8/8/3R4/4K3").unwrap();
    let out = search_white(&board, 2);
    let states = out.states();
    assert_eq!(states.len(), 1 + std::cmp::min(out.search_depth as usize, out.moves.len() / 2));
    let mut replay = board.clone();
    replay.step(&out.moves[0], &out.moves[1]);
    assert_eq!(states[1].pieces(), replay.pieces());
}

#[test]
fn move_at_indexes_the_possible_moves() {
    let board = BoardState::new_initial_state();
    let moves = board.get_all_possible_moves(Side::White);
    assert_eq!(realtime_chess::random::move_count(&board, Side::White), moves.len());
    for (i, m) in moves.iter().enumerate() {
        assert_eq!(&realtime_chess::random::move_at(&board, Side::White, i), m);
    }
}
