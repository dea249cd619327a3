use checkers::ai::{choose_turn, Ai, Decision, GAME_LOSS, GAME_WIN};
use checkers::board::{Board, Move, Piece, PieceType, Square, Team};

fn decision_for(board: Board, team: Team) -> Decision {
    Decision { team, moves: Vec::new(), board_state: board, score: None }
}

#[test]
fn evaluator_returns_loss_sentinel_without_pieces() {
    // A team with no pieces scores the minimum sentinel, even when the
    // opponent has none either: loss takes priority.
    let mut board = Board::empty();
    board.place_piece(
        &Square { x: 2, y: 2 },
        Piece { team: Team::Dark, piece_type: PieceType::Man },
    );
    let d = decision_for(board, Team::Light);
    assert_eq!(d.score_board_state(), GAME_LOSS);
    assert_eq!(GAME_LOSS, i32::MIN);

    let both_empty = decision_for(Board::empty(), Team::Light);
    assert_eq!(both_empty.score_board_state(), GAME_LOSS);
}

#[test]
fn evaluator_returns_win_sentinel_when_opponent_empty() {
    let mut board = Board::empty();
    board.place_piece(
        &Square { x: 2, y: 2 },
        Piece { team: Team::Dark, piece_type: PieceType::Man },
    );
    let d = decision_for(board, Team::Dark);
    assert_eq!(d.score_board_state(), GAME_WIN);
    assert_eq!(GAME_WIN, i32::MAX);
}

#[test]
fn evaluator_sums_material() {
    // Two Dark Men and a Dark King against one Light Man:
    // 10 + 10 + 20 - 10 = 30 from Dark's point of view.
    let mut board = Board::empty();
    board.place_piece(
        &Square { x: 1, y: 0 },
        Piece { team: Team::Dark, piece_type: PieceType::Man },
    );
    board.place_piece(
        &Square { x: 3, y: 0 },
        Piece { team: Team::Dark, piece_type: PieceType::Man },
    );
    board.place_piece(
        &Square { x: 5, y: 0 },
        Piece { team: Team::Dark, piece_type: PieceType::King },
    );
    board.place_piece(
        &Square { x: 0, y: 7 },
        Piece { team: Team::Light, piece_type: PieceType::Man },
    );
    let dark = decision_for(board.clone(), Team::Dark);
    assert_eq!(dark.score_board_state(), 30);
    let light = decision_for(board, Team::Light);
    assert_eq!(light.score_board_state(), -30);

    // The starting position is balanced.
    let start = decision_for(Board::new(), Team::Light);
    assert_eq!(start.score_board_state(), 0);
}

#[test]
fn cached_score_is_memoized() {
    let mut d = decision_for(Board::new(), Team::Light);
    assert_eq!(d.cached_score_board_state(), 0);
    assert_eq!(d.score, Some(0));
    // A cached score is returned as it stands, whatever it is.
    d.score = Some(123);
    assert_eq!(d.cached_score_board_state(), 123);
}

#[test]
fn enumerator_expands_jump_chains_with_prefixes() {
    // A Dark Man at (0, 0) can jump to (2, 2) and from there on to (4, 4):
    // the enumerator offers the one-jump prefix and the full chain as
    // separate turns.
    let mut board = Board::empty();
    board.place_piece(
        &Square { x: 0, y: 0 },
        Piece { team: Team::Dark, piece_type: PieceType::Man },
    );
    board.place_piece(
        &Square { x: 1, y: 1 },
        Piece { team: Team::Light, piece_type: PieceType::Man },
    );
    board.place_piece(
        &Square { x: 3, y: 3 },
        Piece { team: Team::Light, piece_type: PieceType::Man },
    );
    let decisions = Ai::_get_possible_decisions(Team::Dark, board);
    let turns: Vec<Vec<Move>> = decisions.iter().map(|d| d.moves.clone()).collect();
    let first = Move { from: Square { x: 0, y: 0 }, to: Square { x: 2, y: 2 } };
    let second = Move { from: Square { x: 2, y: 2 }, to: Square { x: 4, y: 4 } };
    assert!(turns.contains(&vec![first]));
    assert!(turns.contains(&vec![first, second]));
    assert_eq!(turns.len(), 2);
    for d in &decisions {
        assert_eq!(d.team, Team::Dark);
        assert!(d.score.is_none());
    }
}

#[test]
fn search_takes_winning_capture() {
    // Dark to move: jumping the lone Light piece wins outright, and the
    // search prefers it to any quiet step.
    let mut board = Board::empty();
    board.place_piece(
        &Square { x: 2, y: 2 },
        Piece { team: Team::Dark, piece_type: PieceType::Man },
    );
    board.place_piece(
        &Square { x: 3, y: 3 },
        Piece { team: Team::Light, piece_type: PieceType::Man },
    );
    let turn = choose_turn(board, Team::Dark, 2);
    assert_eq!(
        turn,
        vec![Move { from: Square { x: 2, y: 2 }, to: Square { x: 4, y: 4 } }]
    );
}

#[test]
fn choose_turn_from_initial_board_is_valid_and_deterministic() {
    // From the initial board the chosen turn is non-empty, starts with a
    // legal move, and two searches over identical inputs agree.
    for team in [Team::Light, Team::Dark] {
        let board = Board::new();
        let turn = choose_turn(board.clone(), team, 2);
        assert!(!turn.is_empty());
        let legal = board.get_all_valid_moves(team);
        assert!(legal.contains(&turn[0]));
        let again = choose_turn(board.clone(), team, 2);
        assert_eq!(turn, again);
    }
}

#[test]
fn choose_turn_empty_when_no_moves() {
    // A team without pieces has no legal turn: the empty turn signals the
    // loss.
    let mut board = Board::empty();
    board.place_piece(
        &Square { x: 2, y: 2 },
        Piece { team: Team::Dark, piece_type: PieceType::Man },
    );
    let turn = choose_turn(board, Team::Light, 2);
    assert!(turn.is_empty());

    // So does a team whose only piece is blocked: a Light Man in the corner
    // whose step square is taken and whose jump square is occupied.
    let mut blocked = Board::empty();
    blocked.place_piece(
        &Square { x: 0, y: 7 },
        Piece { team: Team::Light, piece_type: PieceType::Man },
    );
    blocked.place_piece(
        &Square { x: 1, y: 6 },
        Piece { team: Team::Dark, piece_type: PieceType::Man },
    );
    blocked.place_piece(
        &Square { x: 2, y: 5 },
        Piece { team: Team::Dark, piece_type: PieceType::Man },
    );
    assert!(blocked.get_all_valid_moves(Team::Light).is_empty());
    let light_turn = choose_turn(blocked, Team::Light, 2);
    assert!(light_turn.is_empty());
}

#[test]
fn ai_plays_full_depth_from_initial_board() {
    let ai = Ai { team: Team::Dark };
    let mut board = Board::new();
    let turn = ai.get_next_moves(board.clone());
    assert!(!turn.is_empty());
    assert!(board.get_all_valid_moves(Team::Dark).contains(&turn[0]));
    // The turn is continuous and replays cleanly against the board it was
    // computed from: each move starts where the previous one ended, on a
    // square that still holds the moved piece.
    for w in turn.windows(2) {
        assert_eq!(w[0].to, w[1].from);
    }
    for mv in &turn {
        assert!(board.get_piece_at(&mv.from).is_some());
        assert!(Board::in_bounds(&mv.to));
        board.apply_move(mv);
    }
    assert_eq!(board.pieces_alive(Team::Dark), 12);
}

#[test]
fn score_recursive_memoizes_and_scores() {
    let mut board = Board::empty();
    board.place_piece(
        &Square { x: 2, y: 2 },
        Piece { team: Team::Dark, piece_type: PieceType::Man },
    );
    board.place_piece(
        &Square { x: 5, y: 5 },
        Piece { team: Team::Light, piece_type: PieceType::Man },
    );
    let mut d = decision_for(board, Team::Dark);
    let score = d.score_recursive(2, true, GAME_LOSS, GAME_WIN);
    assert_eq!(d.score, Some(score));
    // A second call returns the memoized value unchanged.
    assert_eq!(d.score_recursive(0, false, GAME_LOSS, GAME_WIN), score);
}
