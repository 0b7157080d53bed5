use checkers::board::{Board, Piece, Player, Square};
use checkers::moves::{Movement, SquareState};

#[test]
fn test_simple_movements() {
    let board_new = Board::new();
    let mut board = Board::new();
    let hash = board.hash();
    let movement = Movement::simple(
        SquareState::piece(15, Piece::player1_pawn()),
        SquareState::empty(19),
    );
    assert!(board
        .simple_moves(Player::Player1)
        .iter()
        .any(|m| *m == movement));
    board.do_movement(&movement);
    assert_ne!(board_new.squares, board.squares);
    board.undo_movement(&movement);
    assert_eq!(board_new.squares, board.squares);
    assert_eq!(hash, board.hash());
}

#[test]
fn test_do_movement_jump() {
    let mut board = Board::new();
    let hash = board.hash();
    let m1 = Movement::simple(
        SquareState::piece(15, Piece::player1_pawn()),
        SquareState::empty(20),
    );
    let m2 = Movement::simple(
        SquareState::piece(30, Piece::player2_pawn()),
        SquareState::empty(25),
    );
    board.do_movement(&m1);
    board.do_movement(&m2);
    let movement = Movement::jump(
        SquareState::piece(20, Piece::player1_pawn()),
        SquareState::empty(30),
        SquareState::piece(25, Piece::player2_pawn()),
    );
    assert!(!board
        .simple_moves(Player::Player1)
        .iter()
        .any(|m| *m == movement));
    assert!(board
        .jump_moves(Player::Player1)
        .iter()
        .any(|m| *m == movement));
    board.do_movement(&movement);
    assert_eq!(board.get(25), Square::Empty);
    board.undo_movement(&movement);
    board.undo_movement(&m2);
    board.undo_movement(&m1);
    assert_eq!(board.squares, Board::new().squares);
    assert_eq!(hash, board.hash());
}

#[test]
fn test_do_movement_multi_jump() {
    let mut board = Board::new();
    let hash = board.hash();
    let m1 = Movement::simple(
        SquareState::piece(15, Piece::player1_pawn()),
        SquareState::empty(20),
    );
    let m2 = Movement::simple(
        SquareState::piece(29, Piece::player2_pawn()),
        SquareState::empty(24),
    );
    let m3 = Movement::simple(
        SquareState::piece(11, Piece::player1_pawn()),
        SquareState::empty(15),
    );
    let m4 = Movement::simple(
        SquareState::piece(33, Piece::player2_pawn()),
        SquareState::empty(29),
    );
    let m5 = Movement::simple(
        SquareState::piece(17, Piece::player1_pawn()),
        SquareState::empty(22),
    );
    let m6 = Movement::simple(
        SquareState::piece(38, Piece::player2_pawn()),
        SquareState::empty(33),
    );
    let m7 = Movement::simple(
        SquareState::piece(6, Piece::player1_pawn()),
        SquareState::empty(11),
    );
    let m8 = Movement::simple(
        SquareState::piece(30, Piece::player2_pawn()),
        SquareState::empty(25),
    );
    let movement = Movement::multi_jump(
        SquareState::piece(20, Piece::player1_pawn()),
        SquareState::empty(30),
        SquareState::piece(25, Piece::player2_pawn()),
        Box::new(Movement::jump(
            SquareState::piece(30, Piece::player1_pawn()),
            SquareState::empty(38),
            SquareState::piece(34, Piece::player2_pawn()),
        )),
    );
    board.do_movement(&m1);
    board.do_movement(&m2);
    board.do_movement(&m3);
    board.do_movement(&m4);
    board.do_movement(&m5);
    board.do_movement(&m6);
    board.do_movement(&m7);
    board.do_movement(&m8);
    assert!(!board
        .simple_moves(Player::Player1)
        .iter()
        .any(|m| *m == movement));
    assert!(board
        .jump_moves(Player::Player1)
        .iter()
        .any(|m| *m == movement));
    board.do_movement(&movement);
    let (p1, p2) = board.piece_count();
    assert_eq!(p1, 12);
    assert_eq!(p2, 10);
    board.undo_movement(&movement);
    board.undo_movement(&m8);
    board.undo_movement(&m7);
    board.undo_movement(&m6);
    board.undo_movement(&m5);
    board.undo_movement(&m4);
    board.undo_movement(&m3);
    board.undo_movement(&m2);
    board.undo_movement(&m1);
    assert_eq!(board.squares, Board::new().squares);
    assert_eq!(hash, board.hash());
}

#[test]
fn test_king_circle_jump() {
    let mut board = Board::empty();
    let hash = board.hash();
    board.set(11, Square::Taken(Piece::player1_king()));
    board.set(16, Square::Taken(Piece::player2_pawn()));
    board.set(25, Square::Taken(Piece::player2_pawn()));
    board.set(24, Square::Taken(Piece::player2_pawn()));
    board.set(15, Square::Taken(Piece::player2_pawn()));
    let jumps = board.jump_moves(Player::Player1);
    let movement = Movement::multi_jump(
        SquareState::piece(11, Piece::player1_king()),
        SquareState::empty(21),
        SquareState::piece(16, Piece::player2_pawn()),
        Box::new(Movement::multi_jump(
            SquareState::piece(21, Piece::player1_king()),
            SquareState::empty(29),
            SquareState::piece(25, Piece::player2_pawn()),
            Box::new(Movement::multi_jump(
                SquareState::piece(29, Piece::player1_king()),
                SquareState::empty(19),
                SquareState::piece(24, Piece::player2_pawn()),
                Box::new(Movement::jump(
                    SquareState::piece(19, Piece::player1_king()),
                    SquareState::empty(11),
                    SquareState::piece(15, Piece::player2_pawn()),
                )),
            )),
        )),
    );
    assert!(jumps.iter().any(|m| *m == movement));
    board.do_movement(&movement);
    assert_eq!(board.get(16), Square::Empty);
    assert_eq!(board.get(25), Square::Empty);
    assert_eq!(board.get(24), Square::Empty);
    assert_eq!(board.get(15), Square::Empty);
    board.undo_movement(&movement);
    assert_eq!(board.get(16), Square::Taken(Piece::player2_pawn()));
    assert_eq!(board.get(25), Square::Taken(Piece::player2_pawn()));
    assert_eq!(board.get(24), Square::Taken(Piece::player2_pawn()));
    assert_eq!(board.get(15), Square::Taken(Piece::player2_pawn()));
    assert_eq!(hash, board.hash());
}

#[test]
fn test_king_jump() {
    let mut board = Board::empty();
    board.set(11, Square::Taken(Piece::player2_king()));
    board.set(16, Square::Taken(Piece::player1_pawn()));
    let jumps = board.jump_moves(Player::Player2);
    let movement = Movement::jump(
        SquareState::piece(11, Piece::player2_king()),
        SquareState::empty(21),
        SquareState::piece(16, Piece::player1_pawn()),
    );
    assert!(jumps.iter().any(|m| *m == movement));
    board.do_movement(&movement);
    assert_eq!(board.get(11), Square::Empty);
    assert_eq!(board.get(16), Square::Empty);
    assert_eq!(board.get(21), Square::Taken(Piece::player2_king()));
    board.undo_movement(&movement);
    assert_eq!(board.get(11), Square::Taken(Piece::player2_king()));
    assert_eq!(board.get(16), Square::Taken(Piece::player1_pawn()));
    assert_eq!(board.get(21), Square::Empty);
}
