use checkers::board::{Board, Move, Piece, PieceType, Square, Team};

#[test]
fn test_in_bounds() {
    assert!(Board::in_bounds(&Square { x: 0, y: 0 }));
    assert!(Board::in_bounds(&Square { x: 0, y: 7 }));
    assert!(Board::in_bounds(&Square { x: 7, y: 0 }));
    assert!(Board::in_bounds(&Square { x: 7, y: 7 }));

    assert!(!Board::in_bounds(&Square { x: -1, y: 0 }));
    assert!(!Board::in_bounds(&Square { x: 0, y: -1 }));
    assert!(!Board::in_bounds(&Square { x: -1, y: -1 }));
    assert!(!Board::in_bounds(&Square { x: 0, y: 8 }));
    assert!(!Board::in_bounds(&Square { x: 8, y: 0 }));
    assert!(!Board::in_bounds(&Square { x: 8, y: 8 }));
}

#[test]
fn test_square_occupied() {
    let board = Board::new();
    assert!(board.square_occupied(&Square { x: 0, y: 1 }));
    assert!(board.square_occupied(&Square { x: 1, y: 0 }));
    assert!(board.square_occupied(&Square { x: 6, y: 7 }));
    assert!(board.square_occupied(&Square { x: 7, y: 6 }));

    assert!(!board.square_occupied(&Square { x: 0, y: 0 }));
    assert!(!board.square_occupied(&Square { x: 4, y: 4 }));
    assert!(!board.square_occupied(&Square { x: 5, y: 5 }));
    assert!(!board.square_occupied(&Square { x: 7, y: 7 }));

    assert!(!board.square_occupied(&Square { x: -1, y: -1 }));
    assert!(!board.square_occupied(&Square { x: 8, y: 8 }));
}

#[test]
fn test_can_step() {
    let mut board = Board::new();

    assert!(board.can_step(&Square { x: 1, y: 2 }, &Square { x: 2, y: 3 }));
    assert!(board.can_step(&Square { x: 1, y: 2 }, &Square { x: 0, y: 3 }));
    assert!(board.can_step(&Square { x: 3, y: 2 }, &Square { x: 2, y: 3 }));
    assert!(board.can_step(&Square { x: 3, y: 2 }, &Square { x: 4, y: 3 }));
    assert!(board.can_step(&Square { x: 0, y: 5 }, &Square { x: 1, y: 4 }));
    assert!(board.can_step(&Square { x: 2, y: 5 }, &Square { x: 1, y: 4 }));
    assert!(board.can_step(&Square { x: 2, y: 5 }, &Square { x: 3, y: 4 }));

    // No piece at `from`
    assert!(!board.can_step(&Square { x: 0, y: 0 }, &Square { x: 1, y: 1 }));
    assert!(!board.can_step(&Square { x: 0, y: 2 }, &Square { x: 1, y: 3 }));
    assert!(!board.can_step(&Square { x: 2, y: 0 }, &Square { x: 3, y: 1 }));
    assert!(!board.can_step(&Square { x: 7, y: 7 }, &Square { x: 6, y: 6 }));
    assert!(!board.can_step(&Square { x: -1, y: -1 }, &Square { x: 0, y: 0 }));
    assert!(!board.can_step(&Square { x: 8, y: 8 }, &Square { x: 7, y: 7 }));

    // `to` is occupied
    assert!(!board.can_step(&Square { x: 1, y: 0 }, &Square { x: 2, y: 1 }));
    assert!(!board.can_step(&Square { x: 0, y: 1 }, &Square { x: 1, y: 2 }));
    assert!(!board.can_step(&Square { x: 0, y: 7 }, &Square { x: 1, y: 6 }));
    assert!(!board.can_step(&Square { x: 1, y: 6 }, &Square { x: 0, y: 5 }));

    // Wrong distance
    assert!(!board.can_step(&Square { x: 3, y: 2 }, &Square { x: 0, y: 3 }));
    assert!(!board.can_step(&Square { x: 3, y: 2 }, &Square { x: 1, y: 3 }));
    assert!(!board.can_step(&Square { x: 3, y: 2 }, &Square { x: 3, y: 3 }));
    assert!(!board.can_step(&Square { x: 3, y: 2 }, &Square { x: 0, y: 4 }));
    assert!(!board.can_step(&Square { x: 3, y: 2 }, &Square { x: 1, y: 4 }));
    assert!(!board.can_step(&Square { x: 3, y: 2 }, &Square { x: 2, y: 4 }));
    assert!(!board.can_step(&Square { x: 3, y: 2 }, &Square { x: 3, y: 4 }));

    // Out of bounds
    assert!(!board.can_step(&Square { x: 7, y: 0 }, &Square { x: 8, y: 1 }));
    assert!(!board.can_step(&Square { x: 0, y: 1 }, &Square { x: 8, y: 2 }));
    assert!(!board.can_step(&Square { x: 7, y: 2 }, &Square { x: 8, y: 3 }));

    // Wrong direction
    board.apply_move(&Move { from: Square { x: 1, y: 2 }, to: Square { x: 2, y: 3 } });
    assert!(!board.can_step(&Square { x: 2, y: 3 }, &Square { x: 1, y: 2 }));
}

#[test]
fn test_can_jump() {
    let mut board = Board::empty();

    board.place_piece(
        &Square { x: 4, y: 4 },
        Piece { team: Team::Dark, piece_type: PieceType::King },
    );
    let mut add_piece = |x: i8, y: i8, team: Team| {
        board.place_piece(&Square { x, y }, Piece { team, piece_type: PieceType::Man });
    };
    //   2 3 4 5
    add_piece(3, 5, Team::Dark); // 2 W
    add_piece(3, 3, Team::Light); // 3   W   W
    add_piece(2, 2, Team::Light); // 4     B
    add_piece(5, 3, Team::Light); // 5   B

    assert!(!board.can_jump(&Square { x: 4, y: 4 }, &Square { x: 2, y: 2 })); // Space occupied
    assert!(!board.can_jump(&Square { x: 4, y: 4 }, &Square { x: 2, y: 6 })); // Can't jump over own piece
    assert!(board.can_jump(&Square { x: 4, y: 4 }, &Square { x: 6, y: 2 }));
    assert!(!board.can_jump(&Square { x: 4, y: 4 }, &Square { x: 6, y: 6 })); // No piece to jump over
}

#[test]
fn initial_moves_are_steps_only() {
    // From the starting position each team has exactly its seven front-row
    // steps and no jumps.
    let board = Board::new();
    for team in [Team::Dark, Team::Light] {
        let moves = board.get_all_valid_moves(team);
        assert_eq!(moves.len(), 7);
        for m in &moves {
            assert!(!m.is_jump());
        }
    }
    let dark_moves = board.get_all_valid_moves(Team::Dark);
    assert!(dark_moves.contains(&Move { from: Square { x: 1, y: 2 }, to: Square { x: 0, y: 3 } }));
    assert!(dark_moves.contains(&Move { from: Square { x: 7, y: 2 }, to: Square { x: 6, y: 3 } }));
    let light_moves = board.get_all_valid_moves(Team::Light);
    assert!(light_moves.contains(&Move { from: Square { x: 0, y: 5 }, to: Square { x: 1, y: 4 } }));
    assert!(light_moves.contains(&Move { from: Square { x: 6, y: 5 }, to: Square { x: 7, y: 4 } }));
}

#[test]
fn jump_removes_captured_piece() {
    let mut board = Board::empty();
    board.place_piece(
        &Square { x: 2, y: 2 },
        Piece { team: Team::Dark, piece_type: PieceType::Man },
    );
    board.place_piece(
        &Square { x: 3, y: 3 },
        Piece { team: Team::Light, piece_type: PieceType::Man },
    );
    let jump = Move { from: Square { x: 2, y: 2 }, to: Square { x: 4, y: 4 } };
    assert!(board.can_jump(&jump.from, &jump.to));
    assert!(jump.is_jump());

    board.apply_move(&jump);
    assert_eq!(board.pieces_alive(Team::Dark), 1);
    assert_eq!(board.pieces_alive(Team::Light), 0);
    assert!(board.get_piece_at(&Square { x: 3, y: 3 }).is_none());
    let moved = board.get_piece_at(&Square { x: 4, y: 4 }).unwrap();
    assert_eq!(moved.team, Team::Dark);
    // No promotion away from the far rank: the mover's rank is unchanged.
    assert_eq!(moved.piece_type, PieceType::Man);
    assert!(board.game_over());
}

#[test]
fn man_promotes_on_far_rank_king_stays_king() {
    // A Light Man reaching y == 0 comes out of the same apply_move call as
    // a King.
    let mut board = Board::empty();
    board.place_piece(
        &Square { x: 1, y: 1 },
        Piece { team: Team::Light, piece_type: PieceType::Man },
    );
    board.apply_move(&Move { from: Square { x: 1, y: 1 }, to: Square { x: 0, y: 0 } });
    let promoted = board.get_piece_at(&Square { x: 0, y: 0 }).unwrap();
    assert_eq!(promoted.piece_type, PieceType::King);
    assert_eq!(promoted.team, Team::Light);

    // A King making the same kind of move stays a King.
    let mut board = Board::empty();
    board.place_piece(
        &Square { x: 1, y: 1 },
        Piece { team: Team::Light, piece_type: PieceType::King },
    );
    board.apply_move(&Move { from: Square { x: 1, y: 1 }, to: Square { x: 0, y: 0 } });
    let still_king = board.get_piece_at(&Square { x: 0, y: 0 }).unwrap();
    assert_eq!(still_king.piece_type, PieceType::King);

    // A Dark Man promotes on y == 7, and a Man short of the far rank does
    // not.
    let mut board = Board::empty();
    board.place_piece(
        &Square { x: 1, y: 6 },
        Piece { team: Team::Dark, piece_type: PieceType::Man },
    );
    board.apply_move(&Move { from: Square { x: 1, y: 6 }, to: Square { x: 0, y: 7 } });
    assert_eq!(
        board.get_piece_at(&Square { x: 0, y: 7 }).unwrap().piece_type,
        PieceType::King
    );
    let mut board = Board::empty();
    board.place_piece(
        &Square { x: 3, y: 3 },
        Piece { team: Team::Light, piece_type: PieceType::Man },
    );
    board.apply_move(&Move { from: Square { x: 3, y: 3 }, to: Square { x: 2, y: 2 } });
    assert_eq!(
        board.get_piece_at(&Square { x: 2, y: 2 }).unwrap().piece_type,
        PieceType::Man
    );
}

#[test]
fn valid_moves_for_empty_square_is_ok_and_empty() {
    let board = Board::new();
    let moves = board.get_valid_moves_for_piece_at(&Square { x: 4, y: 4 }).unwrap();
    assert!(moves.is_empty());
    let moves = board.get_valid_moves_for_piece_at(&Square { x: -3, y: 11 }).unwrap();
    assert!(moves.is_empty());
}

#[test]
fn jumps_listed_separately_from_steps() {
    let mut board = Board::empty();
    board.place_piece(
        &Square { x: 2, y: 2 },
        Piece { team: Team::Dark, piece_type: PieceType::Man },
    );
    board.place_piece(
        &Square { x: 3, y: 3 },
        Piece { team: Team::Light, piece_type: PieceType::Man },
    );
    let jumps = board.get_valid_jumps_for_piece_at(&Square { x: 2, y: 2 });
    assert_eq!(jumps.len(), 1);
    assert_eq!(jumps[0], Move { from: Square { x: 2, y: 2 }, to: Square { x: 4, y: 4 } });
    // The full move list holds the open step and the jump.
    let all = board.get_valid_moves_for_piece_at(&Square { x: 2, y: 2 }).unwrap();
    assert_eq!(all.len(), 2);
    assert!(all.contains(&Move { from: Square { x: 2, y: 2 }, to: Square { x: 1, y: 3 } }));
    assert!(all.contains(&Move { from: Square { x: 2, y: 2 }, to: Square { x: 4, y: 4 } }));
}

#[test]
fn find_piece_square_locates_piece() {
    let board = Board::new();
    let sq = board.find_piece_square(&Piece { team: Team::Dark, piece_type: PieceType::Man });
    assert_eq!(sq, Square { x: 1, y: 0 });
    let moves =
        board.get_valid_moves_for_piece(&Piece { team: Team::Dark, piece_type: PieceType::Man });
    // The first Dark Man in row-major order sits on the back rank and is
    // blocked by its own side.
    assert!(moves.is_empty());
}

#[test]
fn get_pieces_lists_all_pieces_in_order() {
    let board = Board::new();
    let entries = board.get_pieces();
    assert_eq!(entries.len(), 24);
    assert_eq!(entries[0].0, Square { x: 1, y: 0 });
    assert_eq!(entries[0].1, Piece { team: Team::Dark, piece_type: PieceType::Man });
    assert_eq!(entries[23].0, Square { x: 6, y: 7 });
    assert_eq!(entries[23].1, Piece { team: Team::Light, piece_type: PieceType::Man });
    for w in entries.windows(2) {
        let a = &w[0].0;
        let b = &w[1].0;
        assert!((a.y, a.x) < (b.y, b.x));
    }
}

#[test]
fn game_over_only_when_a_team_is_empty() {
    let board = Board::new();
    assert!(!board.game_over());
    assert_eq!(board.pieces_alive(Team::Light), 12);
    assert_eq!(board.pieces_alive(Team::Dark), 12);

    let empty = Board::empty();
    assert!(empty.game_over());

    let mut one_sided = Board::empty();
    one_sided.place_piece(
        &Square { x: 0, y: 1 },
        Piece { team: Team::Dark, piece_type: PieceType::Man },
    );
    assert!(one_sided.game_over());
    assert_eq!(one_sided.pieces_alive(Team::Dark), 1);
    assert_eq!(one_sided.pieces_alive(Team::Light), 0);
}

#[test]
fn team_other_flips() {
    assert_eq!(Team::Light.other(), Team::Dark);
    assert_eq!(Team::Dark.other(), Team::Light);
}
