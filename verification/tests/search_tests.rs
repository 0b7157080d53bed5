use std::collections::HashMap;

use checkers::ai::{search, Stats};
use checkers::board::{Board, Player};

// Pruning must never change the selected move, only the work done to find
// it: at every position of a simulated game, the move chosen with alpha-beta
// pruning equals the move plain minimax chooses.
#[test]
fn test_pruned_search_matches_plain_search() {
    let mut board = Board::new();
    let mut stats = Stats::new();
    let mut player = Player::Player1;
    let mut plies = 0u32;
    loop {
        let pruned = search(player, &mut board, true, &mut None, 4, &mut stats);
        let plain = search(player, &mut board, false, &mut None, 4, &mut stats);
        assert_eq!(pruned, plain);
        match pruned {
            Some(movement) => {
                board.do_movement(&movement);
            }
            None => break,
        }
        board.mark_kings();
        player = player.other();
        plies += 1;
        if plies == 60 {
            break;
        }
    }
    assert!(plies > 10);
}

// The search leaves the board exactly as it found it, squares and
// fingerprint alike, even though it mutates the board in place while
// exploring.
#[test]
fn test_search_restores_board() {
    let mut board = Board::new();
    let reference = Board::new();
    let mut stats = Stats::new();
    let hash = board.hash();
    let chosen = search(Player::Player1, &mut board, true, &mut None, 5, &mut stats);
    assert!(chosen.is_some());
    assert_eq!(board.squares, reference.squares);
    assert_eq!(board.hash(), hash);
}

// The transposition table must not change the selection either: at every
// position of a simulated game, the move chosen with a persistent table
// equals the move the table-less pruned search chooses (the original's
// full-game equivalence, exercised at a bounded depth).
#[test]
fn test_table_search_matches_plain_search() {
    let mut board = Board::new();
    let mut stats = Stats::new();
    let mut table = Some(HashMap::new());
    let mut player = Player::Player1;
    let mut plies = 0u32;
    loop {
        let with_table = search(player, &mut board, true, &mut table, 4, &mut stats);
        let without = search(player, &mut board, true, &mut None, 4, &mut stats);
        assert_eq!(with_table, without);
        match with_table {
            Some(movement) => {
                board.do_movement(&movement);
            }
            None => break,
        }
        board.mark_kings();
        player = player.other();
        plies += 1;
        if plies == 40 {
            break;
        }
    }
    assert!(plies > 10);
}
