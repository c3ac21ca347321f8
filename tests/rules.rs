use tictactoe::game::{
    check_line, copy_board, get_available_moves, is_game_over, is_game_won, is_valid_move,
    move_code_to_position, no_more_moves, play_move, position_to_move_code, update_board, Board,
    MoveOutcome, Piece, Position, Turn,
};

fn board_of(rows: [&str; 3]) -> Board {
    rows.iter()
        .map(|r| {
            r.chars()
                .map(|c| match c {
                    'X' => Some(Piece::X),
                    'O' => Some(Piece::O),
                    _ => None,
                })
                .collect()
        })
        .collect()
}

#[test]
fn check_line_needs_three_equal_pieces() {
    assert_eq!(check_line(&[Some(Piece::X), Some(Piece::X), Some(Piece::X)]), Some(Piece::X));
    assert_eq!(check_line(&[Some(Piece::O), Some(Piece::O), Some(Piece::O)]), Some(Piece::O));
    assert_eq!(check_line(&[Some(Piece::X), Some(Piece::O), Some(Piece::X)]), None);
    assert_eq!(check_line(&[None, None, None]), None);
    assert_eq!(check_line(&[Some(Piece::X), Some(Piece::X), None]), None);
}

#[test]
fn is_game_won_finds_every_line() {
    assert_eq!(is_game_won(&board_of(["...", "OOO", "X.X"])), Some(Piece::O));
    assert_eq!(is_game_won(&board_of(["..X", "O.X", "O.X"])), Some(Piece::X));
    assert_eq!(is_game_won(&board_of(["X.O", ".XO", "..X"])), Some(Piece::X));
    assert_eq!(is_game_won(&board_of(["X.O", ".OX", "O.."])), Some(Piece::O));
    assert_eq!(is_game_won(&board_of(["XOX", "XOO", "OXX"])), None);
    assert_eq!(is_game_won(&board_of(["...", "...", "..."])), None);
}

#[test]
fn is_game_won_reports_lines_in_order() {
    // Row 0 comes before column 2.
    assert_eq!(is_game_won(&board_of(["XXX", "..O", "..O"])), Some(Piece::X));
    assert_eq!(is_game_won(&board_of(["OOO", "XXX", "..."])), Some(Piece::O));
}

#[test]
fn no_more_moves_and_game_over() {
    let full = board_of(["XOX", "XOO", "OXX"]);
    assert!(no_more_moves(&full));
    assert!(is_game_over(&full));
    let open = board_of(["XOX", "XOO", "OX."]);
    assert!(!no_more_moves(&open));
    assert!(!is_game_over(&open));
    let won = board_of(["XXX", "OO.", "..."]);
    assert!(!no_more_moves(&won));
    assert!(is_game_over(&won));
}

#[test]
fn available_moves_are_row_major_empty_cells() {
    let board = board_of(["X.O", ".X.", "O.."]);
    let moves = get_available_moves(&board);
    assert_eq!(
        moves,
        vec![
            Position { x: 1, y: 0 },
            Position { x: 0, y: 1 },
            Position { x: 2, y: 1 },
            Position { x: 1, y: 2 },
            Position { x: 2, y: 2 },
        ]
    );
    assert!(get_available_moves(&board_of(["XOX", "XOO", "OXX"])).is_empty());
    assert_eq!(get_available_moves(&vec![vec![None; 3]; 3]).len(), 9);
}

#[test]
fn valid_moves_and_updates() {
    let mut board = board_of(["X..", "...", "..."]);
    assert!(!is_valid_move(&board, &Position { x: 0, y: 0 }));
    assert!(is_valid_move(&board, &Position { x: 1, y: 0 }));
    assert!(!is_valid_move(&board, &Position { x: 3, y: 0 }));
    assert!(!is_valid_move(&board, &Position { x: 0, y: 3 }));
    update_board(&mut board, &Position { x: 2, y: 1 }, Piece::O);
    assert_eq!(board, board_of(["X..", "..O", "..."]));
    let copy = copy_board(&board);
    assert_eq!(copy, board);
}

#[test]
fn move_codes_follow_the_keypad() {
    assert_eq!(position_to_move_code(&Position { x: 0, y: 0 }), Some(7));
    assert_eq!(position_to_move_code(&Position { x: 1, y: 0 }), Some(8));
    assert_eq!(position_to_move_code(&Position { x: 2, y: 0 }), Some(9));
    assert_eq!(position_to_move_code(&Position { x: 0, y: 1 }), Some(4));
    assert_eq!(position_to_move_code(&Position { x: 1, y: 1 }), Some(5));
    assert_eq!(position_to_move_code(&Position { x: 2, y: 1 }), Some(6));
    assert_eq!(position_to_move_code(&Position { x: 0, y: 2 }), Some(1));
    assert_eq!(position_to_move_code(&Position { x: 1, y: 2 }), Some(2));
    assert_eq!(position_to_move_code(&Position { x: 2, y: 2 }), Some(3));
    assert_eq!(position_to_move_code(&Position { x: 3, y: 0 }), None);
    assert_eq!(position_to_move_code(&Position { x: 0, y: 3 }), None);
}

#[test]
fn move_code_text_is_parsed() {
    assert_eq!(move_code_to_position("7"), Some(Position { x: 0, y: 0 }));
    assert_eq!(move_code_to_position("5"), Some(Position { x: 1, y: 1 }));
    assert_eq!(move_code_to_position("3"), Some(Position { x: 2, y: 2 }));
    assert_eq!(move_code_to_position("1"), Some(Position { x: 0, y: 2 }));
    assert_eq!(move_code_to_position("9"), Some(Position { x: 2, y: 0 }));
    assert_eq!(move_code_to_position("0"), None);
    assert_eq!(move_code_to_position("a"), None);
    assert_eq!(move_code_to_position(""), None);
    assert_eq!(move_code_to_position("55"), None);
    assert_eq!(move_code_to_position("é"), None);
    for code in 1..=9u8 {
        let pos = move_code_to_position(&code.to_string()).unwrap();
        assert_eq!(position_to_move_code(&pos), Some(code));
    }
}

#[test]
fn pieces_and_turns() {
    assert_eq!(Piece::X.other(), Piece::O);
    assert_eq!(Piece::O.other(), Piece::X);
    assert_eq!(Piece::X.symbol(), 'X');
    assert_eq!(Piece::O.symbol(), 'O');
    assert_eq!(Turn::Player.other(), Turn::Computer);
    assert_eq!(Turn::Computer.other(), Turn::Player);
}

#[test]
fn play_move_reports_each_outcome() {
    let mut board = board_of(["XX.", "OO.", "..."]);
    let before = board.clone();
    assert_eq!(
        play_move(&mut board, &Position { x: 0, y: 0 }, Piece::O),
        MoveOutcome::Invalid
    );
    assert_eq!(
        play_move(&mut board, &Position { x: 5, y: 1 }, Piece::O),
        MoveOutcome::Invalid
    );
    assert_eq!(board, before);
    assert_eq!(
        play_move(&mut board, &Position { x: 1, y: 2 }, Piece::X),
        MoveOutcome::Continue
    );
    assert_eq!(board, board_of(["XX.", "OO.", ".X."]));
    assert_eq!(
        play_move(&mut board, &Position { x: 2, y: 1 }, Piece::O),
        MoveOutcome::Won(Piece::O)
    );

    let mut last = board_of(["XOX", "XOO", "OX."]);
    assert_eq!(
        play_move(&mut last, &Position { x: 2, y: 2 }, Piece::O),
        MoveOutcome::Draw
    );
    // A win on the last cell counts as a win, not a draw.
    let mut winning_last = board_of(["XOX", "OOX", "XX."]);
    assert_eq!(
        play_move(&mut winning_last, &Position { x: 2, y: 2 }, Piece::X),
        MoveOutcome::Won(Piece::X)
    );
}
