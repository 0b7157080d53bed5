use std::collections::HashMap;

use checkers::board::{Board, Piece, Player, Square};
use checkers::minimax::{evaluation1, evaluation2, evaluation3, get_movement, EvalKind,
    MinimaxContext, Stats};

fn fixed_context(depth: u32) -> MinimaxContext {
    MinimaxContext {
        table: false,
        depth,
        alpha_beta: true,
        quiescence: false,
        iterative: false,
        verbose: false,
        heuristic: EvalKind::Material,
    }
}

#[test]
fn test_mandatory_capture() {
    let mut board = Board::empty();
    board.set(15, Square::Taken(Piece::player1_pawn()));
    board.set(20, Square::Taken(Piece::player2_pawn()));
    let movements = board.movements(Player::Player1);
    let jumps = board.jump_moves(Player::Player1);
    // the piece also has a quiet step to 19, but the capture is mandatory
    assert!(!board.simple_moves(Player::Player1).is_empty());
    assert!(!movements.is_empty());
    assert_eq!(movements, jumps);
    assert!(movements.iter().all(|m| m.is_jump()));
}

#[test]
fn test_fingerprint_transposition() {
    // two boards sharing one random table reach the same position along
    // different move orders: the fingerprints agree
    let mut board = Board::new();
    let mut other = board.clone();
    let a = checkers::moves::Movement::simple(
        checkers::moves::SquareState::piece(15, Piece::player1_pawn()),
        checkers::moves::SquareState::empty(19),
    );
    let b = checkers::moves::Movement::simple(
        checkers::moves::SquareState::piece(30, Piece::player2_pawn()),
        checkers::moves::SquareState::empty(26),
    );
    board.do_movement(&a);
    board.do_movement(&b);
    other.do_movement(&b);
    other.do_movement(&a);
    assert_eq!(board.squares, other.squares);
    assert_eq!(board.hash(), other.hash());
}

#[test]
fn test_promotion() {
    let mut board = Board::empty();
    board.set(37, Square::Taken(Piece::player1_pawn()));
    board.set(6, Square::Taken(Piece::player2_pawn()));
    assert_eq!(board.mark_kings(), 2);
    assert_eq!(board.get(37), Square::Taken(Piece::player1_king()));
    assert_eq!(board.get(6), Square::Taken(Piece::player2_king()));
    // crowning is exhaustive: a second pass finds nothing left to crown
    assert_eq!(board.mark_kings(), 0);
}

#[test]
fn test_promotion_only_own_row() {
    let mut board = Board::empty();
    // a piece on its own home row is not promoted
    board.set(6, Square::Taken(Piece::player1_pawn()));
    board.set(37, Square::Taken(Piece::player2_pawn()));
    assert_eq!(board.mark_kings(), 0);
    assert_eq!(board.get(6), Square::Taken(Piece::player1_pawn()));
    assert_eq!(board.get(37), Square::Taken(Piece::player2_pawn()));
}

#[test]
fn test_no_move_is_terminal() {
    // zero legal moves for the side to play: the engine signals the loss by
    // returning no movement
    let mut board = Board::empty();
    board.set(20, Square::Taken(Piece::player2_pawn()));
    let mut stats = Stats::new();
    let mut table: HashMap<u128, checkers::minimax::TTEntry> = HashMap::new();
    let ctx = fixed_context(3);
    let chosen = get_movement(&mut stats, &ctx, &mut board, Player::Player1, &mut table);
    assert!(chosen.is_none());

    let mut ai_stats = checkers::ai::Stats::new();
    let chosen = checkers::ai::search(
        Player::Player1,
        &mut board,
        true,
        &mut None,
        4,
        &mut ai_stats,
    );
    assert!(chosen.is_none());
}

#[test]
fn test_evaluation_values() {
    let start = Board::new();
    assert_eq!(evaluation1(&start, Player::Player1), 0);
    assert_eq!(evaluation1(&start, Player::Player2), 0);
    assert_eq!(evaluation2(&start, Player::Player1), 0);

    let mut board = Board::empty();
    board.set(15, Square::Taken(Piece::player1_pawn()));
    board.set(16, Square::Taken(Piece::player1_pawn()));
    board.set(30, Square::Taken(Piece::player2_king()));
    assert_eq!(evaluation1(&board, Player::Player1), -1);
    assert_eq!(evaluation1(&board, Player::Player2), 1);
}

#[test]
fn test_evaluation3_empty_board() {
    let board = Board::empty();
    // no mobility and no centre control, but the move-parity term fires
    assert_eq!(evaluation3(&board, Player::Player1), -16384 + 256);
}

#[test]
fn test_get_movement_fixed_depth() {
    let mut board = Board::new();
    let mut stats = Stats::new();
    let mut table: HashMap<u128, checkers::minimax::TTEntry> = HashMap::new();
    let ctx = fixed_context(2);
    let chosen = get_movement(&mut stats, &ctx, &mut board, Player::Player1, &mut table);
    let movement = chosen.expect("a legal movement exists at the start");
    assert!(board
        .movements(Player::Player1)
        .iter()
        .any(|m| *m == movement));
    assert_eq!(stats.moves, 1);
}

#[test]
fn test_get_movement_with_table_and_quiescence() {
    let mut board = Board::new();
    let mut stats = Stats::new();
    let mut table: HashMap<u128, checkers::minimax::TTEntry> = HashMap::new();
    let ctx = MinimaxContext {
        table: true,
        depth: 4,
        alpha_beta: true,
        quiescence: true,
        iterative: false,
        verbose: false,
        heuristic: EvalKind::Positional,
    };
    let chosen = get_movement(&mut stats, &ctx, &mut board, Player::Player1, &mut table);
    let movement = chosen.expect("a legal movement exists at the start");
    assert!(board
        .movements(Player::Player1)
        .iter()
        .any(|m| *m == movement));
}

#[test]
fn test_get_movement_iterative() {
    let mut board = Board::new();
    let mut stats = Stats::new();
    let mut table: HashMap<u128, checkers::minimax::TTEntry> = HashMap::new();
    let ctx = MinimaxContext {
        table: true,
        depth: 0,
        alpha_beta: true,
        quiescence: false,
        iterative: true,
        verbose: false,
        heuristic: EvalKind::Samuel,
    };
    let chosen = get_movement(&mut stats, &ctx, &mut board, Player::Player1, &mut table);
    let movement = chosen.expect("iterative deepening finishes at least one depth");
    assert!(board
        .movements(Player::Player1)
        .iter()
        .any(|m| *m == movement));
}

#[test]
fn test_player_other_involutive() {
    assert_eq!(Player::Player1.other(), Player::Player2);
    assert_eq!(Player::Player2.other(), Player::Player1);
    assert_eq!(Player::Player1.other().other(), Player::Player1);
}

#[test]
fn test_piece_ids_distinct() {
    let ids = [
        Piece::player1_pawn().id(),
        Piece::player1_king().id(),
        Piece::player2_pawn().id(),
        Piece::player2_king().id(),
    ];
    for i in 0..4 {
        assert!(ids[i] < 4);
        for j in 0..i {
            assert_ne!(ids[i], ids[j]);
        }
    }
}

#[test]
fn test_movement_accessors() {
    let from = checkers::moves::SquareState::piece(15, Piece::player1_pawn());
    let to = checkers::moves::SquareState::empty(19);
    let mut simple = checkers::moves::Movement::simple(from, to);
    assert!(!simple.is_jump());
    assert_eq!(simple.from(), from);
    let jump = checkers::moves::Movement::jump(
        checkers::moves::SquareState::piece(19, Piece::player1_pawn()),
        checkers::moves::SquareState::empty(29),
        checkers::moves::SquareState::piece(24, Piece::player2_pawn()),
    );
    assert!(jump.is_jump());
    assert_eq!(jump.duplicate(), jump);
    simple.set_next(&jump);
    let copy = simple.duplicate();
    assert_eq!(copy, simple);

    let board = Board::default();
    assert_eq!(board.squares, Board::new().squares);

    let pawn = Piece::player2_pawn();
    assert_eq!(pawn.get_player(), Player::Player2);
    assert!(!pawn.is_king());
    assert_eq!(pawn.movements(), vec![-4, -5]);
    assert_eq!(Piece::player1_king().movements(), vec![-4, -5, 4, 5]);
}
